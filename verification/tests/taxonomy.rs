use rise::fixed::UNIT;
use rise::genetics::{Gene, Genome, InnovationRegistry};
use rise::random::RandomSource;
use rise::taxonomy::Species;

#[test]
fn species_can_measure_compatibility() {
    let genome1 = Genome::new(
        vec![
            Gene { into: 0, out: 3, weight: UNIT, enabled: true, innovation: 1 },
            Gene { into: 1, out: 3, weight: UNIT, enabled: true, innovation: 2 },
            Gene { into: 3, out: 2, weight: UNIT, enabled: true, innovation: 3 },
        ],
        2,
        1,
    );

    let genome2 = genome1.clone();

    let species = Species { representative: genome1, genomes: Vec::new(), avg_fitness: 0 };

    assert!(species.compatible(&genome2) == true);
}

#[test]
fn species_can_measure_incompatibility() {
    let genome1 = Genome::new(
        vec![
            Gene { into: 0, out: 3, weight: UNIT, enabled: true, innovation: 1 },
            Gene { into: 1, out: 3, weight: UNIT, enabled: true, innovation: 2 },
            Gene { into: 3, out: 2, weight: UNIT, enabled: true, innovation: 3 },
        ],
        2,
        1,
    );

    let genome2 = Genome::new(
        vec![
            Gene { into: 3, out: 0, weight: 5 * UNIT, enabled: true, innovation: 4 },
            Gene { into: 3, out: 1, weight: 5 * UNIT, enabled: true, innovation: 5 },
            Gene { into: 2, out: 3, weight: 5 * UNIT, enabled: true, innovation: 6 },
        ],
        2,
        1,
    );

    let species = Species { representative: genome1, genomes: Vec::new(), avg_fitness: 0 };

    assert!(species.compatible(&genome2) == false);
}

#[test]
fn difference_is_zero_between_identical_genomes() {
    let genome = Genome::new(
        vec![
            Gene { into: 0, out: 2, weight: UNIT / 2, enabled: true, innovation: 1 },
            Gene { into: 1, out: 2, weight: -UNIT, enabled: true, innovation: 2 },
        ],
        2,
        1,
    );
    assert_eq!(Species::difference(&genome, &genome.clone()), Some(0));
}

#[test]
fn difference_is_undefined_without_matching_innovations() {
    let genome1 = Genome::new(
        vec![Gene { into: 0, out: 2, weight: UNIT, enabled: true, innovation: 1 }],
        2,
        1,
    );
    let genome2 = Genome::new(
        vec![Gene { into: 0, out: 2, weight: UNIT, enabled: true, innovation: 9 }],
        2,
        1,
    );
    assert_eq!(Species::difference(&genome1, &genome2), None);
}

#[test]
fn difference_counts_weights_and_excess() {
    // matching innovation with weights one unit apart (mean difference one
    // unit), plus the unmatched tail gene counted as excess over the larger
    // size of two (half a unit)
    let a = Genome::new(
        vec![
            Gene { into: 0, out: 2, weight: UNIT, enabled: true, innovation: 1 },
            Gene { into: 1, out: 2, weight: UNIT, enabled: true, innovation: 2 },
        ],
        2,
        1,
    );
    let b = Genome::new(
        vec![Gene { into: 0, out: 2, weight: 2 * UNIT, enabled: true, innovation: 1 }],
        2,
        1,
    );
    assert_eq!(Species::difference(&a, &b), Some(UNIT + UNIT / 2));

    // one match, one mid-walk excess and one tail excess over the larger
    // size of two: one unit in all
    let c = Genome::new(
        vec![
            Gene { into: 0, out: 2, weight: UNIT, enabled: true, innovation: 1 },
            Gene { into: 1, out: 2, weight: UNIT, enabled: true, innovation: 2 },
        ],
        2,
        1,
    );
    let d = Genome::new(
        vec![
            Gene { into: 0, out: 2, weight: UNIT, enabled: true, innovation: 1 },
            Gene { into: 1, out: 2, weight: UNIT, enabled: true, innovation: 3 },
        ],
        2,
        1,
    );
    assert_eq!(Species::difference(&c, &d), Some(UNIT));
    // and symmetrically
    assert_eq!(Species::difference(&d, &c), Some(UNIT));
}

#[test]
fn culling_keeps_the_fitter_half() {
    let mut members = Vec::new();
    for f in [1i64, 3, 2, 4] {
        let mut g = Genome::new(
            vec![Gene { into: 0, out: 1, weight: UNIT, enabled: true, innovation: 1 }],
            1,
            1,
        );
        g.fitness = f * UNIT;
        members.push(g);
    }
    let rep = members[0].clone();
    let mut species = Species { representative: rep, genomes: members, avg_fitness: 0 };

    species.cull();

    assert_eq!(species.genomes.len(), 2);
    assert_eq!(species.genomes[0].fitness, 4 * UNIT);
    assert_eq!(species.genomes[1].fitness, 3 * UNIT);
}

#[test]
fn average_fitness_truncates_toward_zero() {
    let mut members = Vec::new();
    for f in [-3i64, -4] {
        let mut g = Genome::new(
            vec![Gene { into: 0, out: 1, weight: UNIT, enabled: true, innovation: 1 }],
            1,
            1,
        );
        g.fitness = f;
        members.push(g);
    }
    let rep = members[0].clone();
    let mut species = Species { representative: rep, genomes: members, avg_fitness: 0 };

    species.calc_average_fitness();
    assert_eq!(species.average_fitness(), -3);
}

#[test]
fn breeding_within_a_species_produces_a_child() {
    let g1 = Genome::new(
        vec![
            Gene { into: 0, out: 3, weight: UNIT, enabled: true, innovation: 1 },
            Gene { into: 3, out: 2, weight: UNIT, enabled: true, innovation: 2 },
        ],
        2,
        1,
    );
    let g2 = g1.clone();
    let rep = g1.clone();
    let species = Species { representative: rep, genomes: vec![g1, g2], avg_fitness: 0 };

    let mut rng = RandomSource::new(21);
    let mut registry = InnovationRegistry::starting_at(2);
    let child = species.breed_child(&mut rng, &mut registry);
    assert!(child.genes.len() > 0);
    assert_eq!(child.num_inputs, 2);
    assert_eq!(child.num_outputs, 1);
}

#[test]
fn culling_a_lone_member_empties_the_species() {
    let g = Genome::new(
        vec![Gene { into: 0, out: 1, weight: UNIT, enabled: true, innovation: 1 }],
        1,
        1,
    );
    let rep = g.clone();
    let mut species = Species { representative: rep, genomes: vec![g], avg_fitness: 0 };
    species.cull();
    assert_eq!(species.genomes.len(), 0);
}

#[test]
fn empty_gene_lists_have_no_distance() {
    let g1 = Genome::new(Vec::new(), 1, 1);
    let g2 = Genome::new(Vec::new(), 1, 1);
    assert_eq!(Species::difference(&g1, &g2), None);
}

#[test]
fn genes_past_the_shorter_tail_count_as_excess() {
    // innovations [1] against [1, 2]: one match of equal weight, and the
    // unmatched tail gene is excess over the larger size of two
    let short = Genome::new(
        vec![Gene { into: 0, out: 2, weight: UNIT, enabled: true, innovation: 1 }],
        2,
        1,
    );
    let long = Genome::new(
        vec![
            Gene { into: 0, out: 2, weight: UNIT, enabled: true, innovation: 1 },
            Gene { into: 1, out: 2, weight: UNIT, enabled: true, innovation: 2 },
        ],
        2,
        1,
    );
    assert_eq!(Species::difference(&short, &long), Some(UNIT / 2));
    assert_eq!(Species::difference(&long, &short), Some(UNIT / 2));
}
