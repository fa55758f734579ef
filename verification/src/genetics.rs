//! The genotype: innovation-numbered connection genes and the genomes that
//! own them, with random initialisation, crossover and mutation.

use vstd::prelude::*;
use crate::fixed::{UNIT, fmul};
use crate::neurology::Network;
use crate::random::RandomSource;

verus! {

/// A connection gene: a directed edge from neuron `into` to neuron `out`
/// with a fixed-point weight, an enable flag and the innovation number of
/// the structural mutation that introduced it.
#[derive(Clone, Copy, PartialEq, Eq, Structural, Debug)]
pub struct Gene {
    pub into: u64,
    pub out: u64,
    pub weight: i64,
    pub enabled: bool,
    pub innovation: u64,
}

/// `g` with its enable flag set to `e`.
pub open spec fn with_enabled(g: Gene, e: bool) -> Gene {
    Gene { enabled: e, ..g }
}

/// Issues monotonically increasing innovation numbers for new structural
/// mutations. Threaded explicitly into every operation that creates genes,
/// so runs and tests stay independent of hidden global state.
pub struct InnovationRegistry {
    counter: u64,
}

impl InnovationRegistry {
    pub closed spec fn count(self) -> u64 {
        self.counter
    }

    /// A registry that has issued nothing yet.
    pub fn new() -> (r: InnovationRegistry)
        ensures
            r.count() == 0,
    {
        InnovationRegistry { counter: 0 }
    }

    /// A registry that behaves as if `count` numbers were already issued.
    pub fn starting_at(count: u64) -> (r: InnovationRegistry)
        ensures
            r.count() == count,
    {
        InnovationRegistry { counter: count }
    }

    /// Whether at least `n` more numbers can be issued before the counter
    /// would overflow.
    pub fn can_issue(&self, n: u64) -> (b: bool)
        ensures
            b == (self.count() <= u64::MAX - n),
    {
        self.counter <= u64::MAX - n
    }

    /// The next innovation number, one above everything issued before.
    pub fn next(&mut self) -> (r: u64)
        requires
            old(self).count() < u64::MAX,
        ensures
            r == old(self).count() + 1,
            final(self).count() == r,
    {
        self.counter = self.counter + 1;
        self.counter
    }
}

/// How likely a bred genome is to come from crossover rather than cloning.
pub const MUTATE_CROSSOVER: i64 = 750_000;

/// How likely each mutation pass is to perturb one gene's weight.
pub const MUTATE_WEIGHT: i64 = 50_000;

/// How likely each mutation pass is to add a connection gene.
pub const MUTATE_LINK: i64 = 50_000;

/// How likely each mutation pass is to split a connection with a new node.
pub const MUTATE_NODE: i64 = 50_000;

/// The largest relative weight perturbation, around a factor of one.
pub const MUTATE_WEIGHT_STEP: i64 = 50_000;

/// How likely a crossed gene stays disabled when either parent had it so.
pub const MUTATE_DISABLE: i64 = 800_000;

/// All six probabilities lie between zero and one unit, as probabilities
/// must.
pub open spec fn rates_valid(r: MutationRates) -> bool {
    &&& 0 <= r.crossover <= UNIT
    &&& 0 <= r.weight <= UNIT
    &&& 0 <= r.weight_step <= UNIT
    &&& 0 <= r.link <= UNIT
    &&& 0 <= r.node <= UNIT
    &&& 0 <= r.disable <= UNIT
}

/// The mutation probabilities of one genome, in millionths.
#[derive(Clone, Copy, PartialEq, Eq, Structural, Debug)]
pub struct MutationRates {
    pub crossover: i64,
    pub weight: i64,
    pub weight_step: i64,
    pub link: i64,
    pub node: i64,
    pub disable: i64,
}

impl MutationRates {
    /// The module's standard rates.
    pub open spec fn standard() -> MutationRates {
        MutationRates {
            crossover: MUTATE_CROSSOVER,
            weight: MUTATE_WEIGHT,
            weight_step: MUTATE_WEIGHT_STEP,
            link: MUTATE_LINK,
            node: MUTATE_NODE,
            disable: MUTATE_DISABLE,
        }
    }

    pub fn new() -> (r: MutationRates)
        ensures
            r == MutationRates::standard(),
    {
        MutationRates {
            crossover: MUTATE_CROSSOVER,
            weight: MUTATE_WEIGHT,
            weight_step: MUTATE_WEIGHT_STEP,
            link: MUTATE_LINK,
            node: MUTATE_NODE,
            disable: MUTATE_DISABLE,
        }
    }
}

/// The genotype: a gene list, its cached fitness, the materialised network
/// phenotype, the input and output arity, and the genome's mutation rates.
pub struct Genome {
    pub genes: Vec<Gene>,
    pub fitness: i64,
    pub network: Network,
    pub num_inputs: u64,
    pub num_outputs: u64,
    pub mutation_rates: MutationRates,
}

/// The last gene of `genes` carrying innovation `inn`, if any: the match
/// crossover uses. Later genes shadow earlier ones carrying the same
/// number.
pub open spec fn find_last_innovation(genes: Seq<Gene>, inn: u64) -> Option<Gene>
    decreases genes.len(),
{
    if genes.len() == 0 {
        None
    } else if genes.last().innovation == inn {
        Some(genes.last())
    } else {
        find_last_innovation(genes.drop_last(), inn)
    }
}

/// A found match carries the innovation number it was found by.
pub proof fn lemma_find_last_innovation(genes: Seq<Gene>, inn: u64)
    ensures
        match find_last_innovation(genes, inn) {
            Some(g) => g.innovation == inn,
            None => true,
        },
    decreases genes.len(),
{
    if genes.len() > 0 && genes.last().innovation != inn {
        lemma_find_last_innovation(genes.drop_last(), inn);
    }
}

/// Every value one crossed gene may take, with `ga` the leading parent's
/// gene: `ga` or the other parent's matching gene, re-enabled; where either
/// parent had the gene disabled, possibly disabled again.
pub open spec fn cross_gene_ok(ga: Gene, bgenes: Seq<Gene>, g: Gene) -> bool {
    match find_last_innovation(bgenes, ga.innovation) {
        None => g == with_enabled(ga, true),
        Some(gb) => {
            ||| g == with_enabled(ga, true)
            ||| g == with_enabled(gb, true)
            ||| ((!ga.enabled || !gb.enabled) && (g == with_enabled(ga, false) || g
                == with_enabled(gb, false)))
        },
    }
}

/// What crossover guarantees, with `a` the leading (fitter) parent and `b`
/// the other: one child gene per gene of `a`, each an allowed pick carrying
/// `a`'s innovation number, and `a`'s arity and rates carried over.
pub open spec fn cross_post(a: Genome, b: Genome, child: Genome) -> bool {
    &&& child.genes@.len() == a.genes@.len()
    &&& forall|i: int|
        0 <= i < child.genes@.len() ==> cross_gene_ok(
            a.genes@[i],
            b.genes@,
            #[trigger] child.genes@[i],
        )
    &&& forall|i: int|
        0 <= i < child.genes@.len() ==> (#[trigger] child.genes@[i]).innovation
            == a.genes@[i].innovation
    &&& child.num_inputs == a.num_inputs
    &&& child.num_outputs == a.num_outputs
    &&& child.mutation_rates == a.mutation_rates
    &&& child.fitness == 0
}

/// The last gene of `genes` carrying innovation `inn`, scanned from the
/// back.
fn find_match(genes: &Vec<Gene>, inn: u64) -> (r: Option<Gene>)
    ensures
        r == find_last_innovation(genes@, inn),
{
    let mut j: usize = genes.len();
    proof {
        assert(genes@.take(j as int) =~= genes@);
    }
    while j > 0
        invariant
            j <= genes@.len(),
            find_last_innovation(genes@, inn) == find_last_innovation(genes@.take(j as int), inn),
        decreases j,
    {
        j = j - 1;
        let g = genes[j];
        proof {
            assert(genes@.take(j as int + 1).last() == genes@[j as int]);
            assert(genes@.take(j as int + 1).drop_last() =~= genes@.take(j as int));
        }
        if g.innovation == inn {
            return Some(g);
        }
    }
    proof {
        assert(genes@.take(0).len() == 0);
    }
    None
}

/// One added link: a fresh enabled gene of weight one between two existing
/// nodes, not aimed at the input layer and not duplicating any connection.
pub open spec fn link_added(o: Genome, n: Genome, n1: u64, n2: u64, inn: u64) -> bool {
    &&& o.network.contains_id(n1)
    &&& o.network.contains_id(n2)
    &&& n2 >= o.num_inputs
    &&& forall|i: int|
        0 <= i < o.genes@.len() ==> !((#[trigger] o.genes@[i]).into == n1 && o.genes@[i].out == n2)
    &&& n.genes@ == o.genes@.push(
        Gene { into: n1, out: n2, weight: UNIT, enabled: true, innovation: inn },
    )
}

/// One node split: gene `j` disabled and bridged through `m`, the network's
/// highest node id, by two fresh enabled genes — weight one into the bridge,
/// the old weight out of it — carrying innovations `base + 1` and `base + 2`.
pub open spec fn node_split(o: Genome, n: Genome, j: int, m: u64, base: u64) -> bool {
    &&& 0 <= j < o.genes@.len()
    &&& o.network.contains_id(m)
    &&& forall|id: u64| o.network.contains_id(id) ==> id <= m
    &&& n.genes@ == o.genes@.update(j, with_enabled(o.genes@[j], false)).push(
        Gene { into: o.genes@[j].into, out: m, weight: UNIT, enabled: true, innovation: (base + 1) as u64 },
    ).push(
        Gene {
            into: m,
            out: o.genes@[j].out,
            weight: o.genes@[j].weight,
            enabled: true,
            innovation: (base + 2) as u64,
        },
    )
}

/// A fresh copy of `g`: equal genes, fitness, arity and rates, coherent in
/// itself (its network is rebuilt, so nothing mutable is shared).
pub open spec fn clone_of(c: Genome, g: Genome) -> bool {
    &&& c.wf()
    &&& c.genes@ == g.genes@
    &&& c.fitness == g.fitness
    &&& c.num_inputs == g.num_inputs
    &&& c.num_outputs == g.num_outputs
    &&& c.mutation_rates == g.mutation_rates
}

/// Existing genes survive in place: each keeps its endpoints and innovation
/// number (only its weight or enable flag may change), and new genes only
/// ever follow them.
pub open spec fn gene_heads_kept(pre: Seq<Gene>, post: Seq<Gene>) -> bool {
    &&& pre.len() <= post.len()
    &&& forall|i: int|
        0 <= i < pre.len() ==> (#[trigger] post[i]).into == pre[i].into && post[i].out
            == pre[i].out && post[i].innovation == pre[i].innovation
}

/// Every existing gene but the one at `jw` (if any) keeps its weight.
pub open spec fn weights_kept_except(pre: Seq<Gene>, post: Seq<Gene>, jw: int) -> bool {
    forall|i: int|
        0 <= i < pre.len() && i < post.len() && i != jw ==> (#[trigger] post[i]).weight
            == pre[i].weight
}

/// Every existing gene but the one at `jn` (if any) keeps its enable flag.
pub open spec fn flags_kept_except(pre: Seq<Gene>, post: Seq<Gene>, jn: int) -> bool {
    forall|i: int|
        0 <= i < pre.len() && i < post.len() && i != jn ==> (#[trigger] post[i]).enabled
            == pre[i].enabled
}

/// What one mutation pass may do to a genome: fitness, arity and rates are
/// untouched; every existing gene keeps its endpoints and innovation number;
/// at most one existing weight is rescaled (by the weight operator) and at
/// most one existing gene's enable flag changes (the node split's disabled
/// gene); and at most three genes are appended (one from a link mutation,
/// two from a node split).
pub open spec fn mutated_from(pre: Genome, post: Genome) -> bool {
    &&& post.wf()
    &&& post.fitness == pre.fitness
    &&& post.num_inputs == pre.num_inputs
    &&& post.num_outputs == pre.num_outputs
    &&& post.mutation_rates == pre.mutation_rates
    &&& post.genes@.len() <= pre.genes@.len() + 3
    &&& gene_heads_kept(pre.genes@, post.genes@)
    &&& exists|jw: int| #[trigger] weights_kept_except(pre.genes@, post.genes@, jw)
    &&& exists|jn: int| #[trigger] flags_kept_except(pre.genes@, post.genes@, jn)
}

/// Crossover of two genomes with the fitter leading (ties keep the first).
pub open spec fn crossed(a: Genome, b: Genome, child: Genome) -> bool {
    if a.fitness >= b.fitness {
        cross_post(a, b, child)
    } else {
        cross_post(b, a, child)
    }
}

/// One weight perturbation: gene `j`'s weight scaled by `1 + d` (in
/// millionths), everything else unchanged.
pub open spec fn weight_perturbed(o: Genome, n: Genome, j: int, d: int) -> bool {
    &&& 0 <= j < o.genes@.len()
    &&& -o.mutation_rates.weight_step <= d < o.mutation_rates.weight_step
    &&& n.genes@ == o.genes@.update(
        j,
        Gene { weight: fmul(o.genes@[j].weight as int, UNIT + d) as i64, ..o.genes@[j] },
    )
}

impl Genome {
    /// The genome's bookkeeping is coherent: its network is the phenotype of
    /// its current genes at its own arity.
    pub open spec fn wf(self) -> bool {
        &&& self.network.valid()
        &&& self.network.matches_genes(self.genes@)
        &&& self.network.n_inputs() == self.num_inputs
        &&& self.network.n_outputs() == self.num_outputs
        &&& self.num_inputs + self.num_outputs <= usize::MAX
        &&& rates_valid(self.mutation_rates)
    }

    /// A genome over the given genes, its network built from them, fitness
    /// zero and standard mutation rates.
    pub fn new(genes: Vec<Gene>, num_inputs: u64, num_outputs: u64) -> (r: Genome)
        requires
            num_inputs + num_outputs <= usize::MAX,
        ensures
            r.wf(),
            r.genes@ == genes@,
            r.fitness == 0,
            r.num_inputs == num_inputs,
            r.num_outputs == num_outputs,
            r.mutation_rates == MutationRates::standard(),
    {
        let network = Network::new(&genes, num_inputs, num_outputs);
        Genome {
            genes,
            network,
            fitness: 0,
            num_inputs,
            num_outputs,
            mutation_rates: MutationRates::new(),
        }
    }

    /// A deep copy: the same genes, fitness, arity and rates, with the
    /// network rebuilt from the copied genes — clones share nothing mutable
    /// with the original.
    pub fn clone(&self) -> (r: Genome)
        requires
            self.num_inputs + self.num_outputs <= usize::MAX,
            rates_valid(self.mutation_rates),
        ensures
            r.wf(),
            r.genes@ == self.genes@,
            r.fitness == self.fitness,
            r.num_inputs == self.num_inputs,
            r.num_outputs == self.num_outputs,
            r.mutation_rates == self.mutation_rates,
    {
        let mut clone_genes: Vec<Gene> = Vec::new();
        let mut i: usize = 0;
        while i < self.genes.len()
            invariant
                i <= self.genes@.len(),
                clone_genes@ == self.genes@.take(i as int),
            decreases self.genes@.len() - i,
        {
            clone_genes.push(self.genes[i]);
            proof {
                assert(clone_genes@ =~= self.genes@.take(i as int + 1));
            }
            i = i + 1;
        }
        proof {
            assert(clone_genes@ =~= self.genes@);
        }
        let clone_network = Network::new(&clone_genes, self.num_inputs, self.num_outputs);
        Genome {
            genes: clone_genes,
            fitness: self.fitness,
            network: clone_network,
            num_inputs: self.num_inputs,
            num_outputs: self.num_outputs,
            mutation_rates: self.mutation_rates,
        }
    }

    /// A genome seeded with one to four random enabled genes between neuron
    /// ids one to six, weights within one unit, innovations freshly issued
    /// in increasing order.
    pub fn random(
        num_inputs: u64,
        num_outputs: u64,
        rng: &mut RandomSource,
        registry: &mut InnovationRegistry,
    ) -> (r: Genome)
        requires
            num_inputs + num_outputs <= usize::MAX,
            old(registry).count() <= u64::MAX - 4,
        ensures
            r.wf(),
            r.fitness == 0,
            r.num_inputs == num_inputs,
            r.num_outputs == num_outputs,
            r.mutation_rates == MutationRates::standard(),
            1 <= r.genes@.len() <= 4,
            forall|i: int|
                0 <= i < r.genes@.len() ==> {
                    let g = #[trigger] r.genes@[i];
                    &&& 1 <= g.into <= 6
                    &&& 1 <= g.out <= 6
                    &&& -UNIT <= g.weight < UNIT
                    &&& g.enabled
                    &&& g.innovation == old(registry).count() + i + 1
                },
            final(registry).count() == old(registry).count() + r.genes@.len(),
            random_envelope(r),
    {
        let count: u64 = 1 + rng.below(4);
        let mut genes: Vec<Gene> = Vec::new();
        let mut i: u64 = 0;
        while i < count
            invariant
                i <= count,
                count <= 4,
                genes@.len() == i,
                registry.count() == old(registry).count() + i,
                old(registry).count() <= u64::MAX - 4,
                forall|j: int|
                    0 <= j < genes@.len() ==> {
                        let g = #[trigger] genes@[j];
                        &&& 1 <= g.into <= 6
                        &&& 1 <= g.out <= 6
                        &&& -UNIT <= g.weight < UNIT
                        &&& g.enabled
                        &&& g.innovation == old(registry).count() + j + 1
                    },
            decreases count - i,
        {
            let gene = Gene {
                into: 1 + rng.below(6),
                out: 1 + rng.below(6),
                weight: rng.range_i64(-UNIT, UNIT),
                enabled: true,
                innovation: registry.next(),
            };
            genes.push(gene);
            i = i + 1;
        }
        Genome::new(genes, num_inputs, num_outputs)
    }


    /// Perturb one uniformly random gene's weight by a relative factor
    /// within `weight_step` of one, and rebuild the network. A genome
    /// without genes, or one whose step rate is zero, is left unchanged.
    pub fn mutate_weight(&mut self, rng: &mut RandomSource)
        requires
            old(self).wf(),
        ensures
            final(self).wf(),
            final(self).genes@.len() == old(self).genes@.len(),
            final(self).fitness == old(self).fitness,
            final(self).num_inputs == old(self).num_inputs,
            final(self).num_outputs == old(self).num_outputs,
            final(self).mutation_rates == old(self).mutation_rates,
            gene_heads_kept(old(self).genes@, final(self).genes@),
            old(self).genes@.len() == 0 || old(self).mutation_rates.weight_step <= 0
                ==> final(self).genes@ == old(self).genes@,
            old(self).genes@.len() > 0 && old(self).mutation_rates.weight_step > 0 ==> exists|
                j: int,
                d: int,
            | #[trigger] weight_perturbed(*old(self), *final(self), j, d),
    {
        if self.genes.len() == 0 || self.mutation_rates.weight_step <= 0 {
            return;
        }
        let j = rng.index_below(self.genes.len());
        let d = rng.range_i64(-self.mutation_rates.weight_step, self.mutation_rates.weight_step);
        let w = self.genes[j].weight;
        let nw = crate::fixed::mul_fixed(w, UNIT + d);
        self.genes[j].weight = nw;
        self.network = Network::new(&self.genes, self.num_inputs, self.num_outputs);
        proof {
            assert(weight_perturbed(*old(self), *self, j as int, d as int));
        }
    }


    /// Try to connect two uniformly random nodes of the current network.
    /// Aborts quietly when both picks are input nodes or the pair is already
    /// connected; otherwise the edge is aimed away from the input layer,
    /// given weight one and a fresh innovation number, and the network is
    /// rebuilt.
    #[verifier::loop_isolation(false)]
    pub fn mutate_link(&mut self, rng: &mut RandomSource, registry: &mut InnovationRegistry)
        requires
            old(self).wf(),
            old(registry).count() < u64::MAX,
        ensures
            final(self).wf(),
            final(self).fitness == old(self).fitness,
            final(self).num_inputs == old(self).num_inputs,
            final(self).num_outputs == old(self).num_outputs,
            final(self).mutation_rates == old(self).mutation_rates,
            old(self).genes@.len() <= final(self).genes@.len() <= old(self).genes@.len() + 1,
            gene_heads_kept(old(self).genes@, final(self).genes@),
            (final(self).genes@ == old(self).genes@ && *final(registry) == *old(registry)) || (
            exists|n1: u64, n2: u64|
                #[trigger] link_added(
                    *old(self),
                    *final(self),
                    n1,
                    n2,
                    (old(registry).count() + 1) as u64,
                ) && final(registry).count() == old(registry).count() + 1),
    {
        let nn = self.network.ids.len();
        if nn == 0 {
            return;
        }
        let i1 = rng.index_below(nn);
        let i2 = rng.index_below(nn);
        let mut neuron1 = self.network.ids[i1];
        let mut neuron2 = self.network.ids[i2];
        proof {
            assert(self.network.ids@.contains(neuron1));
            assert(self.network.ids@.contains(neuron2));
        }

        // both picks are input nodes: nowhere legal to aim the edge
        if neuron1 < self.num_inputs && neuron2 < self.num_inputs {
            return;
        }
        // only the second is an input: swap so the edge leaves the inputs
        if neuron2 < self.num_inputs {
            let temp = neuron2;
            neuron2 = neuron1;
            neuron1 = temp;
        }

        // reject an existing connection between the picked pair
        let mut i: usize = 0;
        while i < self.genes.len()
            invariant
                i <= self.genes@.len(),
                forall|k: int|
                    0 <= k < i ==> !((#[trigger] self.genes@[k]).into == neuron1
                        && self.genes@[k].out == neuron2),
            decreases self.genes@.len() - i,
        {
            let g = self.genes[i];
            if g.into == neuron1 && g.out == neuron2 {
                return;
            }
            i = i + 1;
        }

        let gene = Gene {
            into: neuron1,
            out: neuron2,
            weight: UNIT,
            enabled: true,
            innovation: registry.next(),
        };
        self.genes.push(gene);
        self.network = Network::new(&self.genes, self.num_inputs, self.num_outputs);
        proof {
            assert(link_added(
                *old(self),
                *self,
                neuron1,
                neuron2,
                (old(registry).count() + 1) as u64,
            ));
        }
    }

    /// Split one uniformly random gene: disable it and bridge its endpoints
    /// through the network's highest-numbered node with two fresh enabled
    /// genes, then rebuild the network. A genome without genes, or one whose
    /// network has no nodes, is left unchanged.
    pub fn mutate_node(&mut self, rng: &mut RandomSource, registry: &mut InnovationRegistry)
        requires
            old(self).wf(),
            old(registry).count() <= u64::MAX - 2,
        ensures
            final(self).wf(),
            final(self).fitness == old(self).fitness,
            final(self).num_inputs == old(self).num_inputs,
            final(self).num_outputs == old(self).num_outputs,
            final(self).mutation_rates == old(self).mutation_rates,
            old(self).genes@.len() <= final(self).genes@.len() <= old(self).genes@.len() + 2,
            gene_heads_kept(old(self).genes@, final(self).genes@),
            old(self).genes@.len() == 0 || old(self).network.ids@.len() == 0
                ==> (final(self).genes@ == old(self).genes@ && *final(registry) == *old(registry)),
            old(self).genes@.len() > 0 && old(self).network.ids@.len() > 0 ==> ((exists|
                j: int,
                m: u64,
            |
                #[trigger] node_split(*old(self), *final(self), j, m, old(registry).count()))
                && final(registry).count() == old(registry).count() + 2),
    {
        if self.genes.len() == 0 {
            return;
        }
        let nn = self.network.ids.len();
        if nn == 0 {
            return;
        }

        let j = rng.index_below(self.genes.len());
        let gene = self.genes[j];

        // the highest node id of the current network
        let mut maxneuron: u64 = self.network.ids[0];
        let mut k: usize = 1;
        while k < nn
            invariant
                1 <= k <= nn,
                nn == self.network.ids@.len(),
                self.network.ids@.contains(maxneuron),
                forall|t: int| 0 <= t < k ==> #[trigger] self.network.ids@[t] <= maxneuron,
            decreases nn - k,
        {
            if self.network.ids[k] > maxneuron {
                maxneuron = self.network.ids[k];
                proof {
                    assert(self.network.ids@.contains(maxneuron));
                }
            }
            k = k + 1;
        }
        proof {
            assert forall|id: u64| self.network.contains_id(id) implies id <= maxneuron by {
                let t = choose|t: int|
                    0 <= t < self.network.ids@.len() && self.network.ids@[t] == id;
                assert(self.network.ids@[t] <= maxneuron);
            }
        }

        self.genes[j].enabled = false;
        let inn1 = registry.next();
        let gene1 = Gene {
            into: gene.into,
            out: maxneuron,
            weight: UNIT,
            enabled: true,
            innovation: inn1,
        };
        self.genes.push(gene1);
        let inn2 = registry.next();
        let gene2 = Gene {
            into: maxneuron,
            out: gene.out,
            weight: gene.weight,
            enabled: true,
            innovation: inn2,
        };
        self.genes.push(gene2);
        self.network = Network::new(&self.genes, self.num_inputs, self.num_outputs);
        proof {
            assert(node_split(*old(self), *self, j as int, maxneuron, old(registry).count()));
        }
    }

    /// One mutation pass: roll the weight, link and node mutations, each
    /// against its own rate.
    pub fn mutate(&mut self, rng: &mut RandomSource, registry: &mut InnovationRegistry)
        requires
            old(self).wf(),
            old(registry).count() <= u64::MAX - 3,
        ensures
            mutated_from(*old(self), *final(self)),
            old(registry).count() <= final(registry).count() <= old(registry).count() + 3,
    {
        let ghost start = *self;
        if rng.coin(self.mutation_rates.weight) {
            self.mutate_weight(rng);
        }
        let ghost after_weight = *self;
        let ghost reg_link = *registry;
        if rng.coin(self.mutation_rates.link) {
            self.mutate_link(rng, registry);
        }
        let ghost after_link = *self;
        let ghost reg_node = *registry;
        if rng.coin(self.mutation_rates.node) {
            self.mutate_node(rng, registry);
        }
        proof {
            assert(gene_heads_kept(start.genes@, after_weight.genes@));
            assert(gene_heads_kept(after_weight.genes@, after_link.genes@));
            assert(gene_heads_kept(after_link.genes@, self.genes@));
            assert(gene_heads_kept(start.genes@, self.genes@));

            // the weight operator rescales at most one slot and no flag
            let w1: int = if after_weight.genes@ == start.genes@ {
                -1
            } else {
                let (j, d): (int, int) = choose|j: int, d: int|
                    weight_perturbed(start, after_weight, j, d);
                j
            };
            assert(weights_kept_except(start.genes@, after_weight.genes@, w1)
                && flags_kept_except(start.genes@, after_weight.genes@, -1)) by {
                if after_weight.genes@ != start.genes@ {
                    let (j, d): (int, int) = choose|j: int, d: int|
                        weight_perturbed(start, after_weight, j, d);
                    assert(weight_perturbed(start, after_weight, j, d));
                }
            }

            // a link mutation only appends
            assert(weights_kept_except(after_weight.genes@, after_link.genes@, -1)
                && flags_kept_except(after_weight.genes@, after_link.genes@, -1)) by {
                if after_link.genes@ != after_weight.genes@ {
                    let (n1, n2): (u64, u64) = choose|n1: u64, n2: u64|
                        #[trigger] link_added(
                            after_weight,
                            after_link,
                            n1,
                            n2,
                            (reg_link.count() + 1) as u64,
                        );
                    assert(after_link.genes@ == after_weight.genes@.push(
                        Gene {
                            into: n1,
                            out: n2,
                            weight: UNIT,
                            enabled: true,
                            innovation: (reg_link.count() + 1) as u64,
                        },
                    ));
                }
            }

            // a node split disables at most one slot and keeps every weight
            let f1: int = if self.genes@ == after_link.genes@ {
                -1
            } else {
                let (j, m): (int, u64) = choose|j: int, m: u64|
                    #[trigger] node_split(after_link, *self, j, m, reg_node.count());
                j
            };
            assert(weights_kept_except(after_link.genes@, self.genes@, -1)
                && flags_kept_except(after_link.genes@, self.genes@, f1)) by {
                if self.genes@ != after_link.genes@ {
                    let (j, m): (int, u64) = choose|j: int, m: u64|
                        #[trigger] node_split(after_link, *self, j, m, reg_node.count());
                    assert(node_split(after_link, *self, j, m, reg_node.count()));
                }
            }

            // compose the three stages
            assert forall|i: int|
                0 <= i < start.genes@.len() && i < self.genes@.len() && i != w1 implies (
            #[trigger] self.genes@[i]).weight == start.genes@[i].weight by {
                assert(after_weight.genes@[i].weight == start.genes@[i].weight);
                assert(after_link.genes@[i].weight == after_weight.genes@[i].weight);
                assert(self.genes@[i].weight == after_link.genes@[i].weight);
            }
            assert(weights_kept_except(start.genes@, self.genes@, w1));
            assert forall|i: int|
                0 <= i < start.genes@.len() && i < self.genes@.len() && i != f1 implies (
            #[trigger] self.genes@[i]).enabled == start.genes@[i].enabled by {
                assert(after_weight.genes@[i].enabled == start.genes@[i].enabled);
                assert(after_link.genes@[i].enabled == after_weight.genes@[i].enabled);
                assert(self.genes@[i].enabled == after_link.genes@[i].enabled);
            }
            assert(flags_kept_except(start.genes@, self.genes@, f1));
            assert(mutated_from(start, *self));
        }
    }

    /// Breed with another genome: with probability `crossover` the child is
    /// a crossover of the two, otherwise a clone of the caller; either way
    /// the child is then mutated. A child of two genomes that both have
    /// genes has genes of its own.
    pub fn breed(&self, genome: &Genome, rng: &mut RandomSource, registry: &mut InnovationRegistry) -> (child:
        Genome)
        requires
            self.wf(),
            genome.wf(),
            old(registry).count() <= u64::MAX - 3,
        ensures
            child.wf(),
            (child.num_inputs == self.num_inputs && child.num_outputs == self.num_outputs) || (
            child.num_inputs == genome.num_inputs && child.num_outputs == genome.num_outputs),
            self.genes@.len() > 0 && genome.genes@.len() > 0 ==> child.genes@.len() > 0,
            old(registry).count() <= final(registry).count() <= old(registry).count() + 3,
            exists|mid: Genome|
                (#[trigger] mutated_from(mid, child)) && (crossed(*self, *genome, mid)
                    || clone_of(mid, *self)),
    {
        let mut child = if rng.coin(self.mutation_rates.crossover) {
            self.cross(genome, rng)
        } else {
            self.clone()
        };
        let ghost mid = child;
        proof {
            assert(crossed(*self, *genome, mid) || clone_of(mid, *self));
        }
        child.mutate(rng, registry);
        proof {
            assert(mutated_from(mid, child));
        }
        child
    }

    /// Cross with another genome. The fitter parent leads (ties keep the
    /// caller); each of its genes is kept or swapped for the other parent's
    /// gene of the same innovation number, re-enabled, then possibly
    /// disabled again where either parent had it disabled.
    pub fn cross(&self, genome: &Genome, rng: &mut RandomSource) -> (child: Genome)
        requires
            self.num_inputs + self.num_outputs <= usize::MAX,
            genome.num_inputs + genome.num_outputs <= usize::MAX,
            rates_valid(self.mutation_rates),
            rates_valid(genome.mutation_rates),
        ensures
            child.wf(),
            self.fitness >= genome.fitness ==> cross_post(*self, *genome, child),
            self.fitness < genome.fitness ==> cross_post(*genome, *self, child),
    {
        let (genome1, genome2): (&Genome, &Genome) = if self.fitness < genome.fitness {
            (genome, self)
        } else {
            (self, genome)
        };

        let mut child_genes: Vec<Gene> = Vec::new();
        let mut i: usize = 0;
        while i < genome1.genes.len()
            invariant
                i <= genome1.genes@.len(),
                child_genes@.len() == i,
                forall|j: int|
                    0 <= j < i ==> cross_gene_ok(
                        genome1.genes@[j],
                        genome2.genes@,
                        #[trigger] child_genes@[j],
                    ),
                forall|j: int|
                    0 <= j < i ==> (#[trigger] child_genes@[j]).innovation
                        == genome1.genes@[j].innovation,
            decreases genome1.genes@.len() - i,
        {
            let ga = genome1.genes[i];
            let mut gene = ga;
            match find_match(&genome2.genes, ga.innovation) {
                Some(gb) => {
                    if rng.flip() {
                        gene = gb;
                    }
                    gene.enabled = true;
                    if !ga.enabled || !gb.enabled {
                        if rng.coin(self.mutation_rates.disable) {
                            gene.enabled = false;
                        }
                    }
                    proof {
                        lemma_find_last_innovation(genome2.genes@, ga.innovation);
                    }
                },
                None => {
                    gene.enabled = true;
                },
            }
            child_genes.push(gene);
            i = i + 1;
        }

        let network = Network::new(&child_genes, genome1.num_inputs, genome1.num_outputs);
        Genome {
            genes: child_genes,
            fitness: 0,
            network,
            num_inputs: genome1.num_inputs,
            num_outputs: genome1.num_outputs,
            mutation_rates: genome1.mutation_rates,
        }
    }
}


/// The envelope of a freshly rolled random genome: one to four enabled
/// genes between neuron ids one and six, weights within one unit,
/// innovation numbers strictly increasing, fitness zero, standard rates.
pub open spec fn random_envelope(g: Genome) -> bool {
    &&& 1 <= g.genes@.len() <= 4
    &&& forall|i: int|
        0 <= i < g.genes@.len() ==> {
            let gene = #[trigger] g.genes@[i];
            &&& 1 <= gene.into <= 6
            &&& 1 <= gene.out <= 6
            &&& -UNIT <= gene.weight < UNIT
            &&& gene.enabled
        }
    &&& innovations_increasing(g.genes@)
    &&& g.fitness == 0
    &&& g.mutation_rates == MutationRates::standard()
}

/// Whether a gene list carries strictly increasing innovation numbers.
pub open spec fn innovations_increasing(genes: Seq<Gene>) -> bool {
    forall|i: int, j: int|
        0 <= i < j < genes.len() ==> (#[trigger] genes[i]).innovation < (#[trigger] genes[j]).innovation
}

/// Law: crossover preserves innovation ordering. When the leading parent's
/// genes carry strictly increasing innovation numbers, so do the child's —
/// every child gene inherits its slot's innovation number.
pub proof fn lemma_cross_preserves_innovation_order(a: Genome, b: Genome, child: Genome)
    requires
        cross_post(a, b, child),
        innovations_increasing(a.genes@),
    ensures
        innovations_increasing(child.genes@),
{
    assert forall|i: int, j: int|
        0 <= i < j < child.genes@.len() implies (#[trigger] child.genes@[i]).innovation < (
    #[trigger] child.genes@[j]).innovation by {
        assert(a.genes@[i].innovation < a.genes@[j].innovation);
    }
}

} // verus!
