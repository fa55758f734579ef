use rise::fixed::UNIT;
use rise::genetics::{Gene, Genome};
use rise::neurology::{sigmoid, Network, SIG_SAT};

#[test]
fn networks_evaluate() {
    let genome = Genome::new(
        vec![
            Gene { into: 0, out: 3, weight: UNIT, enabled: true, innovation: 1 },
            Gene { into: 1, out: 3, weight: UNIT, enabled: true, innovation: 2 },
            Gene { into: 3, out: 2, weight: UNIT, enabled: true, innovation: 3 },
        ],
        2,
        1,
    );

    let inputs = vec![UNIT, UNIT];
    let outputs = genome.network.evaluate(inputs);

    assert!(outputs.len() == 1);
    assert!(outputs[0] >= 0 && outputs[0] <= UNIT);
}

#[test]
fn networks_evaluate_feedforward_exactly() {
    // two inputs of one unit each flow into node 3 (sum two units), and
    // node 3 alone into the output: the output must be the activation of
    // the activation of two units
    let genome = Genome::new(
        vec![
            Gene { into: 0, out: 3, weight: UNIT, enabled: true, innovation: 1 },
            Gene { into: 1, out: 3, weight: UNIT, enabled: true, innovation: 2 },
            Gene { into: 3, out: 2, weight: UNIT, enabled: true, innovation: 3 },
        ],
        2,
        1,
    );

    let outputs = genome.network.evaluate(vec![UNIT, UNIT]);
    assert_eq!(outputs.len(), 1);
    assert_eq!(outputs[0], sigmoid(sigmoid(2 * UNIT)));
}

#[test]
fn networks_handles_circular_dependencies() {
    let genome = Genome::new(
        vec![
            Gene { into: 1, out: 3, weight: UNIT, enabled: true, innovation: 1 },
            Gene { into: 2, out: 3, weight: UNIT, enabled: true, innovation: 2 },
            Gene { into: 3, out: 2, weight: UNIT, enabled: true, innovation: 3 },
        ],
        2,
        1,
    );

    let inputs = vec![UNIT, UNIT];
    let outputs = genome.network.evaluate(inputs);

    assert!(outputs.len() == 1);
    assert!(outputs[0] >= 0 && outputs[0] <= UNIT);
    // the output's only path runs through the 2 -> 3 -> 2 cycle, which the
    // feedback cutoff breaks at its first-encounter value of zero
    assert_eq!(outputs[0], 0);
}

#[test]
fn sigmoid_is_zero_at_zero_and_saturates() {
    assert_eq!(sigmoid(0), 0);
    assert_eq!(sigmoid(SIG_SAT), UNIT - 1);
    assert_eq!(sigmoid(-SIG_SAT), -(UNIT - 1));
    assert_eq!(sigmoid(5 * UNIT), UNIT - 1);
    let mid = sigmoid(UNIT / 2);
    assert!(mid > 0 && mid < UNIT);
    assert_eq!(sigmoid(-(UNIT / 2)), -mid);
}

#[test]
fn networks_materialise_only_enabled_genes() {
    let genes = vec![
        Gene { into: 0, out: 3, weight: UNIT, enabled: true, innovation: 1 },
        Gene { into: 1, out: 9, weight: UNIT, enabled: false, innovation: 2 },
    ];
    let net = Network::new(&genes, 2, 1);
    // inputs 0 and 1, output 2, and node 3 from the enabled gene
    assert_eq!(net.ids.len(), 4);
    assert!(net.ids.contains(&3));
    // the disabled gene's hidden node is never created
    assert!(!net.ids.contains(&9));
}

#[test]
fn networks_keep_incoming_and_weights_aligned() {
    let genes = vec![
        Gene { into: 0, out: 2, weight: UNIT, enabled: true, innovation: 1 },
        Gene { into: 1, out: 2, weight: 2 * UNIT, enabled: true, innovation: 2 },
        Gene { into: 0, out: 2, weight: 3 * UNIT, enabled: true, innovation: 3 },
    ];
    let net = Network::new(&genes, 2, 1);
    for k in 0..net.neurons.len() {
        assert_eq!(net.neurons[k].incoming.len(), net.neurons[k].weights.len());
    }
    // the output node collects all three connections in gene order,
    // duplicates included
    let out_slot = net.ids.iter().position(|&id| id == 2).unwrap();
    assert_eq!(net.neurons[out_slot].incoming, vec![0, 1, 0]);
    assert_eq!(net.neurons[out_slot].weights, vec![UNIT, 2 * UNIT, 3 * UNIT]);
}
