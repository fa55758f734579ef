use rise::fixed::UNIT;
use rise::genetics::{Gene, Genome, InnovationRegistry};

#[test]
fn it_works() {
    let genome = Genome::new(
        vec![
            Gene { into: 0, out: 3, weight: UNIT, enabled: true, innovation: 1 },
            Gene { into: 1, out: 3, weight: UNIT, enabled: true, innovation: 2 },
            Gene { into: 3, out: 2, weight: UNIT, enabled: true, innovation: 3 },
        ],
        2,
        1,
    );

    let inputs = vec![UNIT, UNIT];
    let outputs = genome.network.evaluate(inputs);

    assert!(outputs.len() == 1);
    assert!(outputs[0] >= 0 && outputs[0] <= UNIT);
}

#[test]
fn it_handles_circular_dependencies() {
    let genome = Genome::new(
        vec![
            Gene { into: 1, out: 3, weight: UNIT, enabled: true, innovation: 1 },
            Gene { into: 2, out: 3, weight: UNIT, enabled: true, innovation: 2 },
            Gene { into: 3, out: 2, weight: UNIT, enabled: true, innovation: 3 },
        ],
        2,
        1,
    );

    let inputs = vec![UNIT, UNIT];
    let outputs = genome.network.evaluate(inputs);

    assert!(outputs.len() == 1);
    assert!(outputs[0] >= 0 && outputs[0] <= UNIT);
}

#[test]
fn it_breeds() {
    let genome1 = Genome::new(
        vec![
            Gene { into: 0, out: 3, weight: UNIT, enabled: true, innovation: 1 },
            Gene { into: 1, out: 3, weight: UNIT, enabled: true, innovation: 2 },
            Gene { into: 3, out: 2, weight: UNIT, enabled: true, innovation: 3 },
        ],
        2,
        1,
    );

    let genome2 = Genome::new(
        vec![
            Gene { into: 1, out: 3, weight: UNIT, enabled: true, innovation: 1 },
            Gene { into: 2, out: 3, weight: UNIT, enabled: true, innovation: 2 },
            Gene { into: 3, out: 2, weight: UNIT, enabled: true, innovation: 3 },
        ],
        2,
        1,
    );

    let mut rng = rise::random::rng();
    let mut registry = InnovationRegistry::starting_at(3);
    let child = genome1.breed(&genome2, &mut rng, &mut registry);

    assert!(child.genes.len() > 0);
}
