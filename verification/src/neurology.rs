//! The phenotype: a neuron graph built from a genome's enabled genes and
//! evaluated by a demand-driven traversal that tolerates cycles.

use vstd::prelude::*;
use crate::fixed::{UNIT, tdiv, clamp_i64, div_trunc_i128, clamp_to_i64};
use crate::genetics::Gene;

verus! {

/// A neuron of the phenotype: parallel lists of source neuron ids and the
/// weight of each corresponding connection, in gene order.
pub struct Neuron {
    pub incoming: Vec<u64>,
    pub weights: Vec<i64>,
}

/// The sources of neuron `id` after the first `n` genes: the `into`
/// endpoints of the enabled genes whose `out` is `id`, in gene order.
pub open spec fn incoming_spec(genes: Seq<Gene>, n: int, id: u64) -> Seq<u64>
    decreases n,
{
    if n <= 0 || n > genes.len() {
        Seq::empty()
    } else {
        let p = incoming_spec(genes, n - 1, id);
        let g = genes[n - 1];
        if g.enabled && g.out == id {
            p.push(g.into)
        } else {
            p
        }
    }
}

/// The weights of neuron `id` after the first `n` genes, aligned with
/// [`incoming_spec`].
pub open spec fn weights_spec(genes: Seq<Gene>, n: int, id: u64) -> Seq<i64>
    decreases n,
{
    if n <= 0 || n > genes.len() {
        Seq::empty()
    } else {
        let p = weights_spec(genes, n - 1, id);
        let g = genes[n - 1];
        if g.enabled && g.out == id {
            p.push(g.weight)
        } else {
            p
        }
    }
}

/// Whether `id` is a node of the network after the first `n` genes: an
/// input or output id, or an endpoint of an enabled gene.
pub open spec fn node_present(genes: Seq<Gene>, n: int, n_in: u64, n_out: u64, id: u64) -> bool
    decreases n,
{
    if n <= 0 || n > genes.len() {
        id < n_in + n_out
    } else {
        node_present(genes, n - 1, n_in, n_out, id) || (genes[n - 1].enabled && (genes[n
            - 1].out == id || genes[n - 1].into == id))
    }
}

/// Incoming sources and weights stay aligned however many genes are read.
pub proof fn lemma_incoming_weights_aligned(genes: Seq<Gene>, n: int, id: u64)
    ensures
        incoming_spec(genes, n, id).len() == weights_spec(genes, n, id).len(),
    decreases n,
{
    if n > 0 && n <= genes.len() {
        lemma_incoming_weights_aligned(genes, n - 1, id);
    }
}

/// A node that is absent has no recorded sources.
pub proof fn lemma_absent_node_empty(genes: Seq<Gene>, n: int, n_in: u64, n_out: u64, id: u64)
    requires
        !node_present(genes, n, n_in, n_out, id),
    ensures
        incoming_spec(genes, n, id).len() == 0,
        weights_spec(genes, n, id).len() == 0,
    decreases n,
{
    if n > 0 && n <= genes.len() {
        lemma_absent_node_empty(genes, n - 1, n_in, n_out, id);
    }
}

/// Every recorded source of a node is itself a node.
pub proof fn lemma_sources_present(genes: Seq<Gene>, n: int, n_in: u64, n_out: u64, id: u64)
    ensures
        forall|j: int|
            0 <= j < incoming_spec(genes, n, id).len() ==> node_present(
                genes,
                n,
                n_in,
                n_out,
                #[trigger] incoming_spec(genes, n, id)[j],
            ),
    decreases n,
{
    if n > 0 && n <= genes.len() {
        lemma_sources_present(genes, n - 1, n_in, n_out, id);
        assert forall|j: int| 0 <= j < incoming_spec(genes, n, id).len() implies node_present(
            genes,
            n,
            n_in,
            n_out,
            #[trigger] incoming_spec(genes, n, id)[j],
        ) by {
            let p = incoming_spec(genes, n - 1, id);
            if j < p.len() {
                assert(node_present(genes, n - 1, n_in, n_out, p[j]));
            }
        }
    }
}

/// The phenotype graph. Nodes are kept as two parallel vectors in first-seen
/// order — `ids[k]` names the neuron stored at `neurons[k]` — standing in for
/// a map from id to neuron. Ids `[0, num_inputs)` are the input nodes and
/// `[num_inputs, num_inputs + num_outputs)` the output nodes; they occupy the
/// first entries.
pub struct Network {
    pub ids: Vec<u64>,
    pub neurons: Vec<Neuron>,
    pub num_inputs: u64,
    pub num_outputs: u64,
}

impl Network {
    pub open spec fn n_inputs(self) -> u64 {
        self.num_inputs
    }

    pub open spec fn n_outputs(self) -> u64 {
        self.num_outputs
    }

    pub open spec fn contains_id(self, id: u64) -> bool {
        self.ids@.contains(id)
    }

    /// Structural soundness: parallel vectors, unique ids, inputs and
    /// outputs at the front under their own ids, aligned neuron lists, and
    /// every recorded source present as a node.
    pub open spec fn valid(self) -> bool {
        &&& self.ids@.len() == self.neurons@.len()
        &&& self.ids@.no_duplicates()
        &&& self.n_inputs() + self.n_outputs() <= self.ids@.len()
        &&& forall|k: int|
            0 <= k < self.n_inputs() + self.n_outputs() ==> #[trigger] self.ids@[k] == k as u64
        &&& forall|k: int|
            0 <= k < self.neurons@.len() ==> (#[trigger] self.neurons@[k]).incoming@.len()
                == self.neurons@[k].weights@.len()
        &&& forall|k: int, j: int|
            0 <= k < self.neurons@.len() && 0 <= j < self.neurons@[k].incoming@.len()
                ==> self.ids@.contains(#[trigger] self.neurons@[k].incoming@[j])
    }

    /// The network records exactly the enabled genes of `genes`: node `id`
    /// holds the sources and weights of the enabled genes aimed at it, in
    /// gene order, and the node set is the inputs, the outputs and the
    /// endpoints of enabled genes — nothing else.
    pub open spec fn matches_genes(self, genes: Seq<Gene>) -> bool {
        &&& forall|k: int|
            0 <= k < self.ids@.len() ==> (#[trigger] self.neurons@[k]).incoming@ == incoming_spec(
                genes,
                genes.len() as int,
                self.ids@[k],
            )
        &&& forall|k: int|
            0 <= k < self.ids@.len() ==> (#[trigger] self.neurons@[k]).weights@ == weights_spec(
                genes,
                genes.len() as int,
                self.ids@[k],
            )
        &&& forall|id: u64|
            self.ids@.contains(id) <==> node_present(
                genes,
                genes.len() as int,
                self.n_inputs(),
                self.n_outputs(),
                id,
            )
    }

    /// Build the phenotype of `genes`: empty nodes for every input and
    /// output id, then one recorded connection per enabled gene, creating
    /// the endpoints as they are first seen.
    pub fn new(genes: &Vec<Gene>, num_inputs: u64, num_outputs: u64) -> (net: Network)
        requires
            num_inputs + num_outputs <= usize::MAX,
        ensures
            net.valid(),
            net.matches_genes(genes@),
            net.n_inputs() == num_inputs,
            net.n_outputs() == num_outputs,
    {
        let mut ids: Vec<u64> = Vec::new();
        let mut neurons: Vec<Neuron> = Vec::new();

        let total: u64 = num_inputs + num_outputs;
        let mut i: u64 = 0;
        while i < total
            invariant
                i <= total,
                total == num_inputs + num_outputs,
                ids@.len() == i,
                neurons@.len() == i,
                forall|k: int| 0 <= k < i ==> #[trigger] ids@[k] == k as u64,
                forall|k: int|
                    0 <= k < i ==> (#[trigger] neurons@[k]).incoming@.len() == 0
                        && neurons@[k].weights@.len() == 0,
            decreases total - i,
        {
            ids.push(i);
            neurons.push(Neuron { incoming: Vec::new(), weights: Vec::new() });
            i = i + 1;
        }

        proof {
            assert(ids@.no_duplicates());
            assert forall|id: u64| ids@.contains(id) <==> node_present(
                genes@,
                0,
                num_inputs,
                num_outputs,
                id,
            ) by {
                if id < num_inputs + num_outputs {
                    assert(ids@[id as int] == id);
                }
                if ids@.contains(id) {
                    let k = choose|k: int| 0 <= k < ids@.len() && ids@[k] == id;
                    assert(ids@[k] == k as u64);
                }
            }
        }

        let mut g: usize = 0;
        while g < genes.len()
            invariant
                g <= genes@.len(),
                total == num_inputs + num_outputs,
                ids@.len() == neurons@.len(),
                ids@.len() >= total,
                ids@.no_duplicates(),
                forall|k: int| 0 <= k < total ==> #[trigger] ids@[k] == k as u64,
                forall|k: int|
                    0 <= k < ids@.len() ==> (#[trigger] neurons@[k]).incoming@ == incoming_spec(
                        genes@,
                        g as int,
                        ids@[k],
                    ),
                forall|k: int|
                    0 <= k < ids@.len() ==> (#[trigger] neurons@[k]).weights@ == weights_spec(
                        genes@,
                        g as int,
                        ids@[k],
                    ),
                forall|id: u64|
                    ids@.contains(id) <==> node_present(genes@, g as int, num_inputs, num_outputs, id),
            decreases genes@.len() - g,
        {
            let gene = genes[g];
            assert(gene == genes@[g as int]);
            let ghost pre_ids = ids@;
            if gene.enabled {
                // make sure the destination node exists
                let oi: usize = match find_id(&ids, gene.out) {
                    Some(k) => k,
                    None => {
                        proof {
                            lemma_absent_node_empty(genes@, g as int, num_inputs, num_outputs, gene.out);
                        }
                        ids.push(gene.out);
                        neurons.push(Neuron { incoming: Vec::new(), weights: Vec::new() });
                        ids.len() - 1
                    },
                };
                proof {
                    assert(ids@[oi as int] == gene.out);
                    assert(ids@.no_duplicates());
                    assert(forall|id: u64| pre_ids.contains(id) ==> ids@.contains(id)) by {
                        assert(forall|j: int|
                            0 <= j < pre_ids.len() ==> ids@[j] == #[trigger] pre_ids[j]);
                    }
                    assert(forall|k: int|
                        0 <= k < ids@.len() ==> (#[trigger] neurons@[k]).incoming@
                            == incoming_spec(genes@, g as int, ids@[k]));
                }
                // record the connection on the destination node
                neurons[oi].incoming.push(gene.into);
                neurons[oi].weights.push(gene.weight);
                let ghost mid_ids = ids@;
                // make sure the source node exists
                match find_id(&ids, gene.into) {
                    Some(si) => {
                        proof {
                            assert(ids@[si as int] == gene.into);
                            assert(ids@.contains(gene.into));
                        }
                    },
                    None => {
                        proof {
                            assert(!pre_ids.contains(gene.into)) by {
                                if pre_ids.contains(gene.into) {
                                    let j = choose|j: int|
                                        0 <= j < pre_ids.len() && pre_ids[j] == gene.into;
                                    assert(mid_ids[j] == gene.into);
                                }
                            }
                            lemma_absent_node_empty(genes@, g as int, num_inputs, num_outputs, gene.into);
                        }
                        ids.push(gene.into);
                        neurons.push(Neuron { incoming: Vec::new(), weights: Vec::new() });
                        proof {
                            assert(ids@[ids@.len() - 1] == gene.into);
                        }
                    },
                }
                proof {
                    assert(ids@.contains(gene.into));
                }
                proof {
                    let gi = g as int;
                    assert forall|k: int| 0 <= k < ids@.len() implies (#[trigger] neurons@[k]).incoming@
                        == incoming_spec(genes@, gi + 1, ids@[k]) && neurons@[k].weights@
                        == weights_spec(genes@, gi + 1, ids@[k]) by {
                        if k == oi {
                            assert(ids@[k] == gene.out);
                        } else {
                            assert(ids@[k] != gene.out);
                            if k >= mid_ids.len() {
                                // the freshly created source node
                                assert(ids@[k] == gene.into);
                                assert(gene.into != gene.out);
                            }
                        }
                    }
                    assert forall|id: u64| ids@.contains(id) <==> node_present(
                        genes@,
                        gi + 1,
                        num_inputs,
                        num_outputs,
                        id,
                    ) by {
                        if ids@.contains(id) {
                            let j = choose|j: int| 0 <= j < ids@.len() && ids@[j] == id;
                            if j < pre_ids.len() {
                                assert(pre_ids[j] == id);
                                assert(pre_ids.contains(id));
                            } else {
                                assert(id == gene.out || id == gene.into);
                            }
                        }
                        if node_present(genes@, gi + 1, num_inputs, num_outputs, id) {
                            if node_present(genes@, gi, num_inputs, num_outputs, id) {
                                assert(pre_ids.contains(id));
                                let j = choose|j: int|
                                    0 <= j < pre_ids.len() && pre_ids[j] == id;
                                assert(ids@[j] == id);
                            } else {
                                assert(id == gene.out || id == gene.into);
                                if id == gene.out {
                                    assert(ids@[oi as int] == id);
                                } else {
                                    assert(ids@.contains(id));
                                }
                            }
                        }
                    }
                }
            } else {
                proof {
                    assert(forall|k: int|
                        0 <= k < ids@.len() ==> incoming_spec(genes@, g as int + 1, ids@[k])
                            == incoming_spec(genes@, g as int, #[trigger] ids@[k]));
                }
            }
            g = g + 1;
        }

        let net = Network { ids, neurons, num_inputs, num_outputs };
        proof {
            assert forall|k: int|
                0 <= k < net.neurons@.len() implies (#[trigger] net.neurons@[k]).incoming@.len()
                == net.neurons@[k].weights@.len() by {
                lemma_incoming_weights_aligned(genes@, genes@.len() as int, net.ids@[k]);
            }
            assert forall|k: int, j: int|
                0 <= k < net.neurons@.len() && 0 <= j < net.neurons@[k].incoming@.len()
                implies net.ids@.contains(#[trigger] net.neurons@[k].incoming@[j]) by {
                lemma_sources_present(genes@, genes@.len() as int, num_inputs, num_outputs, net.ids@[k]);
            }
        }
        net
    }
}

/// The running evaluation state of one neuron, aligned by index with the
/// network's nodes.
pub struct CalcNeuron {
    pub value: i64,
    pub calculated: bool,
}

/// Whether the neuron named `id` is not yet calculated.
pub open spec fn is_uncalculated(id: u64, ids: Seq<u64>, calc: Seq<CalcNeuron>) -> bool {
    exists|k: int| 0 <= k < ids.len() && k < calc.len() && ids[k] == id && !calc[k].calculated
}

/// Of the first `n` sources, those whose neuron is not yet calculated, in
/// order.
pub open spec fn pending_spec(inc: Seq<u64>, n: int, ids: Seq<u64>, calc: Seq<CalcNeuron>) -> Seq<u64>
    decreases n,
{
    if n <= 0 || n > inc.len() {
        Seq::empty()
    } else {
        let p = pending_spec(inc, n - 1, ids, calc);
        if is_uncalculated(inc[n - 1], ids, calc) {
            p.push(inc[n - 1])
        } else {
            p
        }
    }
}

/// Every pending source is an uncalculated node drawn from the sources.
proof fn lemma_pending_props(inc: Seq<u64>, n: int, ids: Seq<u64>, calc: Seq<CalcNeuron>)
    ensures
        forall|j: int|
            0 <= j < pending_spec(inc, n, ids, calc).len() ==> is_uncalculated(
                #[trigger] pending_spec(inc, n, ids, calc)[j],
                ids,
                calc,
            ) && inc.contains(pending_spec(inc, n, ids, calc)[j]),
    decreases n,
{
    if n > 0 && n <= inc.len() {
        lemma_pending_props(inc, n - 1, ids, calc);
        let p = pending_spec(inc, n - 1, ids, calc);
        assert forall|j: int| 0 <= j < pending_spec(inc, n, ids, calc).len() implies is_uncalculated(
            #[trigger] pending_spec(inc, n, ids, calc)[j],
            ids,
            calc,
        ) && inc.contains(pending_spec(inc, n, ids, calc)[j]) by {
            if j >= p.len() {
                assert(pending_spec(inc, n, ids, calc)[j] == inc[n - 1]);
            }
        }
    }
}

/// How many neurons are not yet calculated.
pub open spec fn count_uncalc(s: Seq<CalcNeuron>) -> int
    decreases s.len(),
{
    if s.len() == 0 {
        0
    } else {
        count_uncalc(s.drop_last()) + if s.last().calculated {
            0int
        } else {
            1int
        }
    }
}

proof fn lemma_count_uncalc_bounds(s: Seq<CalcNeuron>)
    ensures
        0 <= count_uncalc(s) <= s.len(),
    decreases s.len(),
{
    if s.len() > 0 {
        lemma_count_uncalc_bounds(s.drop_last());
    }
}

/// Replacing one entry changes the count by the difference of the two
/// entries' states.
proof fn lemma_count_uncalc_update(s: Seq<CalcNeuron>, k: int, v: CalcNeuron)
    requires
        0 <= k < s.len(),
    ensures
        count_uncalc(s.update(k, v)) == count_uncalc(s) - (if s[k].calculated {
            0int
        } else {
            1int
        }) + (if v.calculated {
            0int
        } else {
            1int
        }),
    decreases s.len(),
{
    let t = s.update(k, v);
    if k == s.len() - 1 {
        assert(t.drop_last() =~= s.drop_last());
    } else {
        assert(t.drop_last() =~= s.drop_last().update(k, v));
        lemma_count_uncalc_update(s.drop_last(), k, v);
        assert(t.last() == s.last());
    }
}

/// An uncalculated entry keeps the count positive.
proof fn lemma_count_uncalc_pos(s: Seq<CalcNeuron>, k: int)
    requires
        0 <= k < s.len(),
        !s[k].calculated,
    ensures
        count_uncalc(s) >= 1,
    decreases s.len(),
{
    lemma_count_uncalc_bounds(s.drop_last());
    if k < s.len() - 1 {
        lemma_count_uncalc_pos(s.drop_last(), k);
    }
}

/// A duplicate-free stack of node ids can hold at most one entry per node.
proof fn lemma_stack_bound(need: Seq<u64>, ids: Seq<u64>)
    requires
        need.no_duplicates(),
        ids.no_duplicates(),
        forall|j: int| 0 <= j < need.len() ==> ids.contains(#[trigger] need[j]),
    ensures
        need.len() <= ids.len(),
{
    broadcast use vstd::seq_lib::seq_to_set_is_finite;

    need.unique_seq_to_set();
    ids.unique_seq_to_set();
    assert(need.to_set().subset_of(ids.to_set())) by {
        assert forall|x: u64| need.to_set().contains(x) implies ids.to_set().contains(x) by {
            assert(need.contains(x));
        }
    }
    vstd::set_lib::lemma_len_subset(need.to_set(), ids.to_set());
}

impl Neuron {
    /// The sources whose neurons have not yet been calculated, in order.
    fn uncalculated_inputs(&self, ids: &Vec<u64>, calc: &Vec<CalcNeuron>) -> (r: Vec<u64>)
        requires
            ids@.no_duplicates(),
            ids@.len() == calc@.len(),
            forall|j: int|
                0 <= j < self.incoming@.len() ==> ids@.contains(#[trigger] self.incoming@[j]),
        ensures
            r@ == pending_spec(self.incoming@, self.incoming@.len() as int, ids@, calc@),
    {
        let mut r: Vec<u64> = Vec::new();
        let mut j: usize = 0;
        while j < self.incoming.len()
            invariant
                j <= self.incoming@.len(),
                ids@.no_duplicates(),
                ids@.len() == calc@.len(),
                forall|i: int|
                    0 <= i < self.incoming@.len() ==> ids@.contains(#[trigger] self.incoming@[i]),
                r@ == pending_spec(self.incoming@, j as int, ids@, calc@),
            decreases self.incoming@.len() - j,
        {
            let u = self.incoming[j];
            let k = match find_id(ids, u) {
                Some(k) => k,
                None => {
                    proof {
                        assert(ids@.contains(u));
                    }
                    vstd::pervasive::unreached()
                },
            };
            if !calc[k].calculated {
                r.push(u);
                proof {
                    assert(is_uncalculated(u, ids@, calc@));
                }
            } else {
                proof {
                    assert(!is_uncalculated(u, ids@, calc@)) by {
                        if is_uncalculated(u, ids@, calc@) {
                            let k2 = choose|k2: int|
                                0 <= k2 < ids@.len() && k2 < calc@.len() && ids@[k2] == u
                                    && !calc@[k2].calculated;
                            assert(k2 != k as int);
                            assert(ids@[k2] == ids@[k as int]);
                        }
                    }
                }
            }
            j = j + 1;
        }
        r
    }
}

/// Inputs at and beyond this magnitude saturate the activation function.
pub const SIG_SAT: i64 = 1_400_000;

/// The activation function, in exact fixed-point terms: a rational
/// approximation of the NEAT steepened sigmoid `2/(1 + e^(-4.9x)) - 1`
/// (that is, `tanh(2.45x)`), saturating at `1.4` units of input and clamped
/// strictly inside `(-1, 1)`.
pub open spec fn sigmoid_spec(x: int) -> int {
    let u = UNIT as int;
    if x >= SIG_SAT as int {
        u - 1
    } else if x <= -(SIG_SAT as int) {
        -(u - 1)
    } else {
        let z = tdiv(49 * x, 20);
        let raw = tdiv(z * (27 * u * u + z * z), 27 * u * u + 9 * z * z);
        if raw > u - 1 {
            u - 1
        } else if raw < -(u - 1) {
            -(u - 1)
        } else {
            raw
        }
    }
}

/// The activation applied to a weighted input sum. The result lies strictly
/// between minus one and one unit.
pub fn sigmoid(x: i64) -> (r: i64)
    ensures
        r == sigmoid_spec(x as int),
        -UNIT < r < UNIT,
{
    if x >= SIG_SAT {
        UNIT - 1
    } else if x <= -SIG_SAT {
        -(UNIT - 1)
    } else {
        let z: i128 = div_trunc_i128(49 * (x as i128), 20);
        let u: i128 = UNIT as i128;
        proof {
            assert(-68_600_000 <= z <= 68_600_000);
            assert(z * z <= 68_600_000 * 68_600_000 && z * z >= 0) by (nonlinear_arith)
                requires
                    -68_600_000 <= z <= 68_600_000,
            ;
        }
        let zz: i128 = z * z;
        proof {
            assert(z * (27 * u * u + zz) <= 68_600_000 * (27 * 1_000_000_000_000i128 + 68_600_000
                * 68_600_000) && z * (27 * u * u + zz) >= -(68_600_000 * (27
                * 1_000_000_000_000i128 + 68_600_000 * 68_600_000))) by (nonlinear_arith)
                requires
                    -68_600_000 <= z <= 68_600_000,
                    0 <= zz <= 68_600_000 * 68_600_000,
                    u == 1_000_000,
            ;
        }
        let num: i128 = z * (27 * u * u + zz);
        let den: i128 = 27 * u * u + 9 * zz;
        let raw: i128 = div_trunc_i128(num, den);
        proof {
            let xi = x as int;
            let ui = UNIT as int;
            let zs = tdiv(49 * xi, 20);
            assert(z == zs);
            assert(zz == zs * zs);
            assert((9 * zs) * zs == 9 * (zs * zs)) by (nonlinear_arith);
            assert(den > 0);
            assert(num == zs * (27 * ui * ui + zs * zs));
            assert(den == 27 * ui * ui + 9 * zs * zs);
            assert(raw == tdiv(zs * (27 * ui * ui + zs * zs), 27 * ui * ui + 9 * zs * zs));
        }
        if raw > (UNIT - 1) as i128 {
            UNIT - 1
        } else if raw < -((UNIT - 1) as i128) {
            -(UNIT - 1)
        } else {
            raw as i64
        }
    }
}


/// The position of `id` among duplicate-free ids.
pub open spec fn slot_of(ids: Seq<u64>, id: u64) -> int {
    choose|k: int| 0 <= k < ids.len() && ids[k] == id
}

/// The saturating weighted input sum of a node, from source position `j`
/// with `acc` accumulated: each source's value times its connection weight,
/// in fixed point, truncated toward zero and saturated, exactly as the
/// evaluator accumulates it.
pub open spec fn wsum_from(
    inc: Seq<u64>,
    weights: Seq<i64>,
    ids: Seq<u64>,
    calc: Seq<CalcNeuron>,
    j: int,
    acc: int,
) -> int
    decreases inc.len() - j,
{
    if j < 0 || j >= inc.len() || j >= weights.len() {
        acc
    } else {
        let s = slot_of(ids, inc[j]);
        let v = if 0 <= s < calc.len() {
            calc[s].value as int
        } else {
            0
        };
        wsum_from(
            inc,
            weights,
            ids,
            calc,
            j + 1,
            crate::fixed::clamp_i128(acc + tdiv(v * weights[j], UNIT as int)),
        )
    }
}

/// The demand stack after visiting a node with pending sources: each
/// pending source from position `k` on that is not already demanded is
/// pushed, in order.
pub open spec fn push_pending(stack: Seq<u64>, pend: Seq<u64>, k: int) -> Seq<u64>
    decreases pend.len() - k,
{
    if k < 0 || k >= pend.len() {
        stack
    } else {
        let s2 = if stack.contains(pend[k]) {
            stack
        } else {
            stack.push(pend[k])
        };
        push_pending(s2, pend, k + 1)
    }
}

/// The evaluation state is sound: parallel id and calculation lists without
/// duplicate ids, demands that are uncalculated nodes demanded once each,
/// and every recorded source present as a node.
pub open spec fn eval_wf(
    ids: Seq<u64>,
    neurons: Seq<Neuron>,
    calc: Seq<CalcNeuron>,
    stack: Seq<u64>,
) -> bool {
    &&& ids.no_duplicates()
    &&& ids.len() == neurons.len()
    &&& ids.len() == calc.len()
    &&& stack.no_duplicates()
    &&& forall|j: int| 0 <= j < stack.len() ==> ids.contains(#[trigger] stack[j])
    &&& forall|j: int, k: int|
        #![trigger stack[j], ids[k]]
        0 <= j < stack.len() && 0 <= k < ids.len() && ids[k] == stack[j]
            ==> !calc[k].calculated
    &&& forall|k: int, t: int|
        0 <= k < neurons.len() && 0 <= t < neurons[k].incoming@.len() ==> ids.contains(
            #[trigger] neurons[k].incoming@[t],
        )
}

/// Pushing pending sources keeps the demand stack sound and never shrinks
/// it.
pub proof fn lemma_push_pending(
    stack: Seq<u64>,
    pend: Seq<u64>,
    k: int,
    ids: Seq<u64>,
    calc: Seq<CalcNeuron>,
)
    requires
        ids.no_duplicates(),
        ids.len() == calc.len(),
        stack.no_duplicates(),
        forall|j: int| 0 <= j < stack.len() ==> ids.contains(#[trigger] stack[j]),
        forall|j: int, t: int|
            #![trigger stack[j], ids[t]]
            0 <= j < stack.len() && 0 <= t < ids.len() && ids[t] == stack[j]
                ==> !calc[t].calculated,
        forall|t: int|
            0 <= t < pend.len() ==> is_uncalculated(#[trigger] pend[t], ids, calc) && ids.contains(
                pend[t],
            ),
    ensures
        push_pending(stack, pend, k).no_duplicates(),
        push_pending(stack, pend, k).len() >= stack.len(),
        forall|j: int|
            0 <= j < push_pending(stack, pend, k).len() ==> ids.contains(
                #[trigger] push_pending(stack, pend, k)[j],
            ),
        forall|j: int, t: int|
            #![trigger push_pending(stack, pend, k)[j], ids[t]]
            0 <= j < push_pending(stack, pend, k).len() && 0 <= t < ids.len() && ids[t]
                == push_pending(stack, pend, k)[j] ==> !calc[t].calculated,
    decreases pend.len() - k,
{
    if 0 <= k < pend.len() {
        if stack.contains(pend[k]) {
            lemma_push_pending(stack, pend, k + 1, ids, calc);
        } else {
            let s2 = stack.push(pend[k]);
            assert(s2.no_duplicates());
            assert forall|j: int| 0 <= j < s2.len() implies ids.contains(#[trigger] s2[j]) by {
                if j < stack.len() {
                    assert(ids.contains(stack[j]));
                }
            }
            assert forall|j: int, t: int|
                #![trigger s2[j], ids[t]]
                0 <= j < s2.len() && 0 <= t < ids.len() && ids[t] == s2[j] implies !calc[t].calculated by {
                if j < stack.len() {
                    assert(stack[j] == s2[j]);
                } else {
                    assert(s2[j] == pend[k]);
                    assert(is_uncalculated(pend[k], ids, calc));
                    let w = choose|w: int|
                        0 <= w < ids.len() && w < calc.len() && ids[w] == pend[k]
                            && !calc[w].calculated;
                    assert(t == w);
                }
            }
            lemma_push_pending(s2, pend, k + 1, ids, calc);
        }
    }
}

/// The demand-driven evaluation loop, step for step. The topmost demand is
/// popped; a node whose sources are all calculated takes the activation of
/// its saturating weighted input sum; a node with pending sources is
/// revisited after them; and where none of its pending sources could be
/// pushed — every one already demanded, a cycle among pending work — the
/// node is cut off as calculated at its current value.
pub open spec fn eval_loop(
    ids: Seq<u64>,
    neurons: Seq<Neuron>,
    calc: Seq<CalcNeuron>,
    stack: Seq<u64>,
) -> Seq<CalcNeuron>
    decreases 2 * count_uncalc(calc) + ids.len() - stack.len(),
        when eval_wf(ids, neurons, calc, stack)
        via eval_loop_decreases
{
    if stack.len() == 0 {
        calc
    } else {
        let node = stack.last();
        let rest = stack.drop_last();
        let oi = slot_of(ids, node);
        let pend = pending_spec(
            neurons[oi].incoming@,
            neurons[oi].incoming@.len() as int,
            ids,
            calc,
        );
        if pend.len() == 0 {
            let v = sigmoid_spec(
                clamp_i64(wsum_from(neurons[oi].incoming@, neurons[oi].weights@, ids, calc, 0, 0)),
            );
            eval_loop(
                ids,
                neurons,
                calc.update(oi, CalcNeuron { value: v as i64, calculated: true }),
                rest,
            )
        } else {
            let stack2 = push_pending(rest.push(node), pend, 0);
            if stack2.len() > rest.len() + 1 {
                eval_loop(ids, neurons, calc, stack2)
            } else {
                eval_loop(
                    ids,
                    neurons,
                    calc.update(oi, CalcNeuron { value: calc[oi].value, calculated: true }),
                    rest,
                )
            }
        }
    }
}

#[via_fn]
proof fn eval_loop_decreases(
    ids: Seq<u64>,
    neurons: Seq<Neuron>,
    calc: Seq<CalcNeuron>,
    stack: Seq<u64>,
) {
    if eval_wf(ids, neurons, calc, stack) && stack.len() > 0 {
        let node = stack.last();
        let rest = stack.drop_last();
        let oi = slot_of(ids, node);
        lemma_count_uncalc_bounds(calc);
        lemma_stack_bound(stack, ids);
        assert(ids.contains(node));
        assert(0 <= oi < ids.len() && ids[oi] == node) by {
            let w = choose|w: int| 0 <= w < ids.len() && ids[w] == node;
            assert(ids[w] == node);
        }
        assert(!calc[oi].calculated);
        lemma_count_uncalc_pos(calc, oi);
        lemma_count_uncalc_update(
            calc,
            oi,
            CalcNeuron {
                value: sigmoid_spec(
                    clamp_i64(
                        wsum_from(neurons[oi].incoming@, neurons[oi].weights@, ids, calc, 0, 0),
                    ),
                ) as i64,
                calculated: true,
            },
        );
        lemma_count_uncalc_update(
            calc,
            oi,
            CalcNeuron { value: calc[oi].value, calculated: true },
        );
        let pend = pending_spec(
            neurons[oi].incoming@,
            neurons[oi].incoming@.len() as int,
            ids,
            calc,
        );
        lemma_pending_props(neurons[oi].incoming@, neurons[oi].incoming@.len() as int, ids, calc);
        assert(rest.push(node) =~= stack);
        lemma_push_pending(stack, pend, 0, ids, calc);
        lemma_stack_bound(push_pending(stack, pend, 0), ids);
    }
}

/// What starts each node's calculation state: the inputs pinned into the
/// input slots as calculated, everything else at zero and uncalculated.
pub open spec fn init_calc(inputs: Seq<i64>, n: int) -> Seq<CalcNeuron> {
    Seq::new(
        n as nat,
        |k: int|
            if k < inputs.len() {
                CalcNeuron { value: inputs[k], calculated: true }
            } else {
                CalcNeuron { value: 0, calculated: false }
            },
    )
}

/// The initial demands: the output ids, in order.
pub open spec fn init_stack(n_in: u64, n_out: u64) -> Seq<u64> {
    Seq::new(n_out as nat, |k: int| (n_in + k) as u64)
}

/// Exactly what [`Network::evaluate`] returns: the values that the
/// evaluation loop leaves in the output slots.
pub open spec fn network_eval(net: Network, inputs: Seq<i64>) -> Seq<i64> {
    let fin = eval_loop(
        net.ids@,
        net.neurons@,
        init_calc(inputs, net.ids@.len() as int),
        init_stack(net.n_inputs(), net.n_outputs()),
    );
    Seq::new(net.n_outputs() as nat, |k: int| fin[net.n_inputs() + k].value)
}

impl Network {
    /// Evaluate the network on one value per input neuron, demand-driven
    /// backward from the outputs.
    ///
    /// An uncalculated node whose sources are all ready takes the activation
    /// of its weighted input sum. A node with pending sources is revisited
    /// after them; when every pending source is already on the work stack —
    /// a cycle among pending work — the node is cut off and keeps its
    /// current value (zero on first encounter). This feedback-cutoff rule
    /// makes evaluation terminate on any gene set, cycles included, which is
    /// what the loop's `decreases` measure proves.
    ///
    /// Returns one value per output neuron, each strictly inside one unit of
    /// zero.
    #[verifier::loop_isolation(false)]
    pub fn evaluate(&self, inputs: Vec<i64>) -> (outputs: Vec<i64>)
        requires
            self.valid(),
            inputs@.len() == self.n_inputs(),
        ensures
            outputs@.len() == self.n_outputs(),
            forall|j: int| 0 <= j < outputs@.len() ==> -UNIT < #[trigger] outputs@[j] < UNIT,
            outputs@ == network_eval(*self, inputs@),
    {
        let n: usize = self.ids.len();
        let nin: u64 = self.num_inputs;
        let nout: u64 = self.num_outputs;

        // one fresh state per node
        let mut calc: Vec<CalcNeuron> = Vec::new();
        let mut k: usize = 0;
        while k < n
            invariant
                k <= n,
                calc@.len() == k,
                forall|j: int|
                    0 <= j < k ==> (#[trigger] calc@[j]).value == 0 && !calc@[j].calculated,
            decreases n - k,
        {
            calc.push(CalcNeuron { value: 0, calculated: false });
            k = k + 1;
        }

        // feed the inputs into the input layer, whose ids equal their slots
        let mut i: usize = 0;
        while i < inputs.len()
            invariant
                i <= inputs@.len(),
                calc@.len() == n,
                forall|j: int|
                    0 <= j < i ==> (#[trigger] calc@[j]) == (CalcNeuron {
                        value: inputs@[j],
                        calculated: true,
                    }),
                forall|j: int|
                    i <= j < n ==> (#[trigger] calc@[j]).value == 0 && !calc@[j].calculated,
            decreases inputs@.len() - i,
        {
            calc[i].value = inputs[i];
            calc[i].calculated = true;
            i = i + 1;
        }

        // seed the work stack with the output ids
        let mut need: Vec<u64> = Vec::new();
        let mut x: u64 = nin;
        while x < nin + nout
            invariant
                nin <= x <= nin + nout,
                need@.len() == x - nin,
                forall|j: int| 0 <= j < need@.len() ==> #[trigger] need@[j] == nin + j,
            decreases nin + nout - x,
        {
            need.push(x);
            x = x + 1;
        }
        proof {
            assert forall|j: int, k2: int|
                0 <= j < need@.len() && 0 <= k2 < n && self.ids@[k2] == need@[j]
                implies !calc@[k2].calculated by {
                assert(self.ids@[nin + j] == nin + j);
                assert(k2 == nin + j);
            }
            assert forall|j: int| 0 <= j < need@.len() implies self.ids@.contains(
                #[trigger] need@[j],
            ) by {
                assert(self.ids@[nin + j] == need@[j]);
            }
            assert(need@.no_duplicates());
            lemma_count_uncalc_bounds(calc@);
            lemma_stack_bound(need@, self.ids@);
            assert(calc@ =~= init_calc(inputs@, n as int));
            assert(need@ =~= init_stack(nin, nout));
        }

        // walk the demand stack until everything demanded is calculated
        while need.len() > 0
            invariant
                calc@.len() == n,
                need@.no_duplicates(),
                forall|j: int| 0 <= j < need@.len() ==> self.ids@.contains(#[trigger] need@[j]),
                forall|j: int, k2: int|
                    0 <= j < need@.len() && 0 <= k2 < n && self.ids@[k2] == need@[j]
                        ==> !(#[trigger] calc@[k2]).calculated && (#[trigger] need@[j]
                        == need@[j]),
                forall|k2: int| nin <= k2 < n ==> -UNIT < (#[trigger] calc@[k2]).value < UNIT,
                eval_loop(self.ids@, self.neurons@, init_calc(inputs@, n as int), init_stack(nin, nout))
                    == eval_loop(self.ids@, self.neurons@, calc@, need@),
            decreases 2 * count_uncalc(calc@) + n - need@.len(),
        {
            proof {
                lemma_count_uncalc_bounds(calc@);
                lemma_stack_bound(need@, self.ids@);
            }
            let ghost need0 = need@;
            let ghost calc0 = calc@;
            let node = match need.pop() {
                Some(v) => v,
                None => vstd::pervasive::unreached(),
            };
            let oi = match find_id(&self.ids, node) {
                Some(k2) => k2,
                None => {
                    proof {
                        assert(need0[need0.len() - 1] == node);
                        assert(self.ids@.contains(node));
                    }
                    vstd::pervasive::unreached()
                },
            };
            proof {
                // the popped node is not calculated and no longer on the stack
                assert(need0[need0.len() - 1] == node);
                assert(!calc@[oi as int].calculated);
                lemma_count_uncalc_pos(calc@, oi as int);
                assert(eval_wf(self.ids@, self.neurons@, calc0, need0)) by {
                    assert forall|j2: int, k2: int|
                        #![trigger need0[j2], self.ids@[k2]]
                        0 <= j2 < need0.len() && 0 <= k2 < self.ids@.len() && self.ids@[k2]
                            == need0[j2] implies !calc0[k2].calculated by {
                        assert(0 <= j2 < need0.len() && 0 <= k2 < n && self.ids@[k2] == need0[j2]);
                        assert(!(calc0[k2]).calculated && need0[j2] == need0[j2]);
                    }
                }
                assert(oi as int == slot_of(self.ids@, node)) by {
                    assert(self.ids@[oi as int] == node);
                    let w = slot_of(self.ids@, node);
                    assert(0 <= w < self.ids@.len() && self.ids@[w] == node);
                }
                assert(!need@.contains(node)) by {
                    if need@.contains(node) {
                        let j = choose|j: int| 0 <= j < need@.len() && need@[j] == node;
                        assert(need0[j] == need0[need0.len() - 1]);
                    }
                }
            }
            let pend = self.neurons[oi].uncalculated_inputs(&self.ids, &calc);
            proof {
                lemma_pending_props(
                    self.neurons@[oi as int].incoming@,
                    self.neurons@[oi as int].incoming@.len() as int,
                    self.ids@,
                    calc@,
                );
            }
            if pend.len() == 0 {
                // every source is ready: weighted sum, then activation
                let neuron = &self.neurons[oi];
                let mut acc: i128 = 0;
                let mut j: usize = 0;
                while j < neuron.incoming.len()
                    invariant
                        j <= neuron.incoming@.len(),
                        calc@.len() == n,
                        calc@ == calc0,
                        wsum_from(neuron.incoming@, neuron.weights@, self.ids@, calc@, 0, 0)
                            == wsum_from(
                            neuron.incoming@,
                            neuron.weights@,
                            self.ids@,
                            calc@,
                            j as int,
                            acc as int,
                        ),
                    decreases neuron.incoming@.len() - j,
                {
                    let u = neuron.incoming[j];
                    let uk = match find_id(&self.ids, u) {
                        Some(k2) => k2,
                        None => vstd::pervasive::unreached(),
                    };
                    proof {
                        assert((calc@[uk as int].value as int) * (neuron.weights@[j as int] as int)
                            <= 0x4000_0000_0000_0000_0000_0000_0000_0000
                            && (calc@[uk as int].value as int) * (neuron.weights@[j as int] as int)
                            >= -0x4000_0000_0000_0000_0000_0000_0000_0000) by (nonlinear_arith)
                            requires
                                -0x8000_0000_0000_0000 <= calc@[uk as int].value
                                    <= 0x8000_0000_0000_0000,
                                -0x8000_0000_0000_0000 <= neuron.weights@[j as int]
                                    <= 0x8000_0000_0000_0000,
                        ;
                    }
                    let term: i128 = (calc[uk].value as i128) * (neuron.weights[j] as i128);
                    let scaled: i128 = div_trunc_i128(term, UNIT as i128);
                    let ghost acc_pre = acc as int;
                    acc = crate::fixed::add_sat_i128(acc, scaled);
                    proof {
                        assert(uk as int == slot_of(self.ids@, u)) by {
                            assert(self.ids@[uk as int] == u);
                            let w = slot_of(self.ids@, u);
                            assert(0 <= w < self.ids@.len() && self.ids@[w] == u);
                        }
                        assert(scaled == tdiv(
                            (calc@[uk as int].value as int) * (neuron.weights@[j as int] as int),
                            UNIT as int,
                        ));
                        assert(acc as int == crate::fixed::clamp_i128(acc_pre + scaled));
                        assert(wsum_from(
                            neuron.incoming@,
                            neuron.weights@,
                            self.ids@,
                            calc@,
                            j as int,
                            acc_pre,
                        ) == wsum_from(
                            neuron.incoming@,
                            neuron.weights@,
                            self.ids@,
                            calc@,
                            j as int + 1,
                            acc as int,
                        ));
                    }
                    j = j + 1;
                }
                proof {
                    assert(acc as int == wsum_from(
                        neuron.incoming@,
                        neuron.weights@,
                        self.ids@,
                        calc@,
                        0,
                        0,
                    ));
                }
                let v = sigmoid(clamp_to_i64(acc));
                calc[oi].value = v;
                calc[oi].calculated = true;
                proof {
                    let c1 = calc0.update(oi as int, CalcNeuron { value: v, calculated: false });
                    lemma_count_uncalc_update(
                        calc0,
                        oi as int,
                        CalcNeuron { value: v, calculated: false },
                    );
                    lemma_count_uncalc_update(c1, oi as int, CalcNeuron { value: v, calculated: true });
                    assert(calc@ == c1.update(oi as int, CalcNeuron { value: v, calculated: true }));
                    assert(count_uncalc(calc@) == count_uncalc(calc0) - 1);
                    assert(eval_loop(self.ids@, self.neurons@, calc0, need0) == eval_loop(
                        self.ids@,
                        self.neurons@,
                        calc@,
                        need@,
                    )) by {
                        assert(need0.last() == node);
                        assert(need0.drop_last() =~= need@);
                        assert(pend@ == pending_spec(
                            self.neurons@[oi as int].incoming@,
                            self.neurons@[oi as int].incoming@.len() as int,
                            self.ids@,
                            calc0,
                        ));
                        assert(v as int == sigmoid_spec(
                            clamp_i64(
                                wsum_from(
                                    self.neurons@[oi as int].incoming@,
                                    self.neurons@[oi as int].weights@,
                                    self.ids@,
                                    calc0,
                                    0,
                                    0,
                                ),
                            ),
                        ));
                        assert(calc@ =~= calc0.update(
                            oi as int,
                            CalcNeuron { value: v, calculated: true },
                        ));
                    }
                    assert forall|j2: int, k2: int|
                        0 <= j2 < need@.len() && 0 <= k2 < n && self.ids@[k2] == need@[j2]
                        implies !(#[trigger] calc@[k2]).calculated && (#[trigger] need@[j2]
                        == need@[j2]) by {
                        assert(need@[j2] != node);
                        assert(k2 != oi as int);
                    }
                }
            } else {
                // revisit this node after its pending sources
                need.push(node);
                let ghost base_need = need@;
                proof {
                    assert(base_need.no_duplicates());
                    assert(forall|j2: int|
                        0 <= j2 < base_need.len() ==> self.ids@.contains(#[trigger] base_need[j2]));
                }
                let mut pushed = false;
                let mut j: usize = 0;
                while j < pend.len()
                    invariant
                        j <= pend@.len(),
                        calc@.len() == n,
                        calc@ == calc0,
                        need@.no_duplicates(),
                        need@.len() >= base_need.len(),
                        !pushed ==> need@ == base_need,
                        pushed ==> need@.len() > base_need.len(),
                        push_pending(base_need, pend@, 0) == push_pending(need@, pend@, j as int),
                        forall|j2: int|
                            0 <= j2 < need@.len() ==> self.ids@.contains(#[trigger] need@[j2]),
                        forall|j2: int, k2: int|
                            0 <= j2 < need@.len() && 0 <= k2 < n && self.ids@[k2] == need@[j2]
                                ==> !(#[trigger] calc@[k2]).calculated && (#[trigger] need@[j2]
                                == need@[j2]),
                    decreases pend@.len() - j,
                {
                    let u = pend[j];
                    let ghost need_pre = need@;
                    if find_id(&need, u).is_none() {
                        need.push(u);
                        pushed = true;
                        proof {
                            assert(!need_pre.contains(u));
                            assert(need@ == need_pre.push(u));
                            assert(push_pending(need_pre, pend@, j as int) == push_pending(
                                need@,
                                pend@,
                                j as int + 1,
                            ));
                            assert(is_uncalculated(u, self.ids@, calc@));
                            assert forall|j2: int, k2: int|
                                0 <= j2 < need@.len() && 0 <= k2 < n && self.ids@[k2] == need@[j2]
                                implies !(#[trigger] calc@[k2]).calculated && (#[trigger] need@[j2]
                                == need@[j2]) by {
                                if j2 == need@.len() - 1 {
                                    let kw = choose|kw: int|
                                        0 <= kw < self.ids@.len() && kw < calc@.len()
                                            && self.ids@[kw] == u && !calc@[kw].calculated;
                                    assert(k2 == kw);
                                }
                            }
                        }
                    } else {
                        proof {
                            assert(need_pre.contains(u));
                            assert(push_pending(need_pre, pend@, j as int) == push_pending(
                                need@,
                                pend@,
                                j as int + 1,
                            ));
                        }
                    }
                    j = j + 1;
                }
                proof {
                    assert(need@ == push_pending(base_need, pend@, 0));
                    assert(base_need =~= need0.drop_last().push(node));
                }
                if !pushed {
                    // every pending source is already demanded: a cycle.
                    // cut the feedback and keep the node's current value.
                    calc[oi].calculated = true;
                    let _ = need.pop();
                    proof {
                        lemma_count_uncalc_update(
                            calc0,
                            oi as int,
                            CalcNeuron { value: calc0[oi as int].value, calculated: true },
                        );
                        assert(calc@ == calc0.update(
                            oi as int,
                            CalcNeuron { value: calc0[oi as int].value, calculated: true },
                        ));
                        assert(count_uncalc(calc@) == count_uncalc(calc0) - 1);
                        assert(need@ =~= need0.drop_last());
                        assert(eval_loop(self.ids@, self.neurons@, calc0, need0) == eval_loop(
                            self.ids@,
                            self.neurons@,
                            calc@,
                            need@,
                        )) by {
                            assert(need0.last() == node);
                            assert(pend@ == pending_spec(
                                self.neurons@[oi as int].incoming@,
                                self.neurons@[oi as int].incoming@.len() as int,
                                self.ids@,
                                calc0,
                            ));
                            assert(pend@.len() > 0);
                            let stack2 = push_pending(need0.drop_last().push(node), pend@, 0);
                            assert(stack2 == base_need);
                            assert(!(stack2.len() > need0.drop_last().len() + 1));
                            assert(calc@ =~= calc0.update(
                                oi as int,
                                CalcNeuron { value: calc0[oi as int].value, calculated: true },
                            ));
                        }
                        assert forall|j2: int, k2: int|
                            0 <= j2 < need@.len() && 0 <= k2 < n && self.ids@[k2] == need@[j2]
                            implies !(#[trigger] calc@[k2]).calculated && (#[trigger] need@[j2]
                            == need@[j2]) by {
                            assert(need@[j2] == need0[j2]);
                            assert(need@[j2] != node);
                            assert(k2 != oi as int);
                        }
                    }
                } else {
                    proof {
                        lemma_stack_bound(need@, self.ids@);
                        assert(count_uncalc(calc@) == count_uncalc(calc0));
                        assert(eval_loop(self.ids@, self.neurons@, calc0, need0) == eval_loop(
                            self.ids@,
                            self.neurons@,
                            calc@,
                            need@,
                        )) by {
                            assert(need0.last() == node);
                            assert(pend@ == pending_spec(
                                self.neurons@[oi as int].incoming@,
                                self.neurons@[oi as int].incoming@.len() as int,
                                self.ids@,
                                calc0,
                            ));
                            assert(pend@.len() > 0);
                            let stack2 = push_pending(need0.drop_last().push(node), pend@, 0);
                            assert(stack2 == need@);
                            assert(stack2.len() > need0.drop_last().len() + 1);
                        }
                    }
                }
            }
        }

        proof {
            assert(eval_wf(self.ids@, self.neurons@, calc@, need@)) by {
                assert forall|j2: int, k2: int|
                    #![trigger need@[j2], self.ids@[k2]]
                    0 <= j2 < need@.len() && 0 <= k2 < self.ids@.len() && self.ids@[k2]
                        == need@[j2] implies !calc@[k2].calculated by {
                    assert(!(calc@[k2]).calculated && need@[j2] == need@[j2]);
                }
            }
            assert(eval_loop(self.ids@, self.neurons@, calc@, need@) == calc@);
            assert(calc@ == eval_loop(
                self.ids@,
                self.neurons@,
                init_calc(inputs@, n as int),
                init_stack(nin, nout),
            ));
        }

        // read the outputs off the output slots
        let ghost settled = calc@;
        let nin_us: usize = nin as usize;
        let nout_us: usize = nout as usize;
        let mut outputs: Vec<i64> = Vec::new();
        let mut o: usize = 0;
        while o < nout_us
            invariant
                o <= nout_us,
                calc@ == settled,
                calc@.len() == n,
                outputs@.len() == o,
                forall|j: int| 0 <= j < o ==> -UNIT < #[trigger] outputs@[j] < UNIT,
                forall|j: int| 0 <= j < o ==> #[trigger] outputs@[j] == calc@[nin + j].value,
            decreases nout_us - o,
        {
            outputs.push(calc[nin_us + o].value);
            o = o + 1;
        }
        proof {
            assert(outputs@ =~= network_eval(*self, inputs@));
        }
        outputs
    }
}

proof fn lemma_endpoint_present(genes: Seq<Gene>, n: int, i: int, n_in: u64, n_out: u64)
    requires
        0 <= i < n <= genes.len(),
        genes[i].enabled,
    ensures
        node_present(genes, n, n_in, n_out, genes[i].into),
        node_present(genes, n, n_in, n_out, genes[i].out),
    decreases n,
{
    if i < n - 1 {
        lemma_endpoint_present(genes, n - 1, i, n_in, n_out);
    }
}

proof fn lemma_io_present(genes: Seq<Gene>, n: int, n_in: u64, n_out: u64, id: u64)
    requires
        id < n_in + n_out,
    ensures
        node_present(genes, n, n_in, n_out, id),
    decreases n,
{
    if n > 0 && n <= genes.len() {
        lemma_io_present(genes, n - 1, n_in, n_out, id);
    }
}

/// Law: a network that records a gene list holds a node for every id that an
/// enabled gene mentions as source or destination, and for every input and
/// output id.
pub proof fn lemma_network_covers(net: Network, genes: Seq<Gene>)
    requires
        net.matches_genes(genes),
    ensures
        forall|i: int|
            0 <= i < genes.len() && (#[trigger] genes[i]).enabled ==> net.contains_id(
                genes[i].into,
            ) && net.contains_id(genes[i].out),
        forall|id: u64| id < net.n_inputs() + net.n_outputs() ==> net.contains_id(id),
{
    assert forall|i: int|
        0 <= i < genes.len() && (#[trigger] genes[i]).enabled implies net.contains_id(
        genes[i].into,
    ) && net.contains_id(genes[i].out) by {
        lemma_endpoint_present(genes, genes.len() as int, i, net.n_inputs(), net.n_outputs());
    }
    assert forall|id: u64| id < net.n_inputs() + net.n_outputs() implies net.contains_id(id) by {
        lemma_io_present(genes, genes.len() as int, net.n_inputs(), net.n_outputs(), id);
    }
}

/// Law: in a network that records a gene list, every neuron holds exactly as
/// many weights as incoming sources.
pub proof fn lemma_neuron_alignment(net: Network, genes: Seq<Gene>)
    requires
        net.matches_genes(genes),
        net.ids@.len() == net.neurons@.len(),
    ensures
        forall|k: int|
            0 <= k < net.neurons@.len() ==> (#[trigger] net.neurons@[k]).incoming@.len()
                == net.neurons@[k].weights@.len(),
{
    assert forall|k: int|
        0 <= k < net.neurons@.len() implies (#[trigger] net.neurons@[k]).incoming@.len()
        == net.neurons@[k].weights@.len() by {
        lemma_incoming_weights_aligned(genes, genes.len() as int, net.ids@[k]);
    }
}

/// The position of `id` among `ids`, if it occurs.
fn find_id(ids: &Vec<u64>, id: u64) -> (r: Option<usize>)
    ensures
        match r {
            Some(k) => k < ids@.len() && ids@[k as int] == id,
            None => !ids@.contains(id),
        },
{
    let mut k: usize = 0;
    while k < ids.len()
        invariant
            k <= ids@.len(),
            forall|j: int| 0 <= j < k ==> ids@[j] != id,
        decreases ids@.len() - k,
    {
        if ids[k] == id {
            return Some(k);
        }
        k = k + 1;
    }
    None
}

} // verus!
