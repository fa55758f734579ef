//! Speciation: genetic distance, compatibility, culling and per-species
//! reproduction.

use vstd::prelude::*;
use crate::fixed::{UNIT, tdiv, clamp_i64};
use crate::genetics::{Gene, Genome, InnovationRegistry, crossed, clone_of, mutated_from};
use crate::random::RandomSource;
use vstd::multiset::Multiset;

verus! {

/// Two genomes closer than this (in millionths) belong to one species.
pub const DIFFERENCE_THRESHOLD: i64 = UNIT;

/// The running totals of the parallel gene walk: excess and disjoint gene
/// counts, the (saturating) sum of absolute weight differences of matching
/// genes, and how many genes matched.
pub ghost struct DiffTotals {
    pub excess: int,
    pub disjoint: int,
    pub weight_sum: int,
    pub matches: int,
}

/// The absolute difference.
pub open spec fn abs_diff(a: int, b: int) -> int {
    if a >= b {
        a - b
    } else {
        b - a
    }
}

/// The parallel walk over two gene lists ordered by innovation number,
/// from positions `i` and `j` with totals `acc` so far. Matching innovations
/// record a weight difference and advance both sides; otherwise the older
/// gene is recorded against the side that lags — as excess when the other
/// side stands at its last gene, as disjoint otherwise — and that side
/// advances. When either list is exhausted, the remainder of the other is
/// recorded as excess.
pub open spec fn walk(s1: Seq<Gene>, s2: Seq<Gene>, i: int, j: int, acc: DiffTotals) -> DiffTotals
    decreases s1.len() + s2.len() - i - j,
{
    if i < 0 || j < 0 || i >= s1.len() || j >= s2.len() {
        let r1 = if 0 <= i <= s1.len() {
            s1.len() - i
        } else {
            0
        };
        let r2 = if 0 <= j <= s2.len() {
            s2.len() - j
        } else {
            0
        };
        DiffTotals { excess: acc.excess + r1 + r2, ..acc }
    } else {
        let g1 = s1[i];
        let g2 = s2[j];
        if g1.innovation == g2.innovation {
            let d = clamp_i64(abs_diff(g1.weight as int, g2.weight as int));
            walk(
                s1,
                s2,
                i + 1,
                j + 1,
                DiffTotals {
                    weight_sum: clamp_i64(acc.weight_sum + d),
                    matches: acc.matches + 1,
                    ..acc
                },
            )
        } else if g1.innovation > g2.innovation {
            let acc2 = if i == s1.len() - 1 {
                DiffTotals { excess: acc.excess + 1, ..acc }
            } else {
                DiffTotals { disjoint: acc.disjoint + 1, ..acc }
            };
            walk(s1, s2, i, j + 1, acc2)
        } else {
            let acc2 = if j == s2.len() - 1 {
                DiffTotals { excess: acc.excess + 1, ..acc }
            } else {
                DiffTotals { disjoint: acc.disjoint + 1, ..acc }
            };
            walk(s1, s2, i + 1, j, acc2)
        }
    }
}

/// Fresh totals.
pub open spec fn no_totals() -> DiffTotals {
    DiffTotals { excess: 0, disjoint: 0, weight_sum: 0, matches: 0 }
}

/// The genetic distance between two gene lists: excess and disjoint counts
/// each divided by the larger list length, plus the mean absolute weight
/// difference of matching genes (each term with a coefficient of one),
/// clamped into the `i64` range. With no matching innovation numbers the
/// mean is undefined and so is the distance — `None` — which classifies
/// such genomes as maximally different.
pub open spec fn distance_spec(s1: Seq<Gene>, s2: Seq<Gene>) -> Option<int> {
    let t = walk(s1, s2, 0, 0, no_totals());
    if t.matches == 0 {
        None
    } else {
        let n = if s1.len() >= s2.len() {
            s1.len() as int
        } else {
            s2.len() as int
        };
        Some(
            clamp_i64(
                tdiv(t.excess * UNIT, n) + tdiv(t.disjoint * UNIT, n) + tdiv(
                    t.weight_sum,
                    t.matches,
                ),
            ),
        )
    }
}

/// Whether `b` is compatible with `a`: their distance is defined and under
/// the threshold.
pub open spec fn compatible_spec(a: Genome, b: Genome) -> bool {
    match distance_spec(a.genes@, b.genes@) {
        Some(d) => d < DIFFERENCE_THRESHOLD,
        None => false,
    }
}

/// Whether fitness never increases along the sequence.
pub open spec fn sorted_desc(s: Seq<Genome>) -> bool {
    forall|i: int, j: int|
        0 <= i < j < s.len() ==> (#[trigger] s[i]).fitness >= (#[trigger] s[j]).fitness
}

/// The survivors of a cull: the first half (rounded down) of some
/// fitness-descending reordering of the original members.
pub open spec fn culled_from(orig: Seq<Genome>, kept: Seq<Genome>) -> bool {
    exists|s: Seq<Genome>|
        {
            &&& #[trigger] s.to_multiset() == orig.to_multiset()
            &&& s.len() == orig.len()
            &&& sorted_desc(s)
            &&& kept == s.take((orig.len() / 2) as int)
        }
}

/// The total fitness of a member list.
pub open spec fn sum_fitness(s: Seq<Genome>) -> int
    decreases s.len(),
{
    if s.len() == 0 {
        0
    } else {
        sum_fitness(s.drop_last()) + s.last().fitness
    }
}

/// The child is an actual breed result of members `i` and `j`: a crossover
/// of the two (fitter leading) or a clone of the first, then mutated.
pub open spec fn bred_pair(members: Seq<Genome>, i: int, j: int, child: Genome) -> bool {
    &&& 0 <= i < members.len()
    &&& 0 <= j < members.len()
    &&& exists|mid: Genome|
        #[trigger] mutated_from(mid, child) && (crossed(members[i], members[j], mid) || clone_of(
            mid,
            members[i],
        ))
}

/// What one bred child may be, given the member list it was bred from:
/// the arity of one of two picked parents, and genes of its own whenever
/// both picked parents have genes.
pub open spec fn breed_pick(members: Seq<Genome>, i: int, j: int, child: Genome) -> bool {
    &&& 0 <= i < members.len()
    &&& 0 <= j < members.len()
    &&& ((child.num_inputs == members[i].num_inputs && child.num_outputs
        == members[i].num_outputs) || (child.num_inputs == members[j].num_inputs
        && child.num_outputs == members[j].num_outputs))
    &&& (members[i].genes@.len() > 0 && members[j].genes@.len() > 0 ==> child.genes@.len() > 0)
}

/// Every member of the species has the given input and output arity.
pub open spec fn species_nums(s: Species, ni: u64, no: u64) -> bool {
    forall|i: int|
        0 <= i < s.genomes@.len() ==> (#[trigger] s.genomes@[i]).num_inputs == ni
            && s.genomes@[i].num_outputs == no
}

/// A representative freshly cloned from member `i`.
pub open spec fn representative_pick(members: Seq<Genome>, i: int, rep: Genome) -> bool {
    &&& 0 <= i < members.len()
    &&& rep.wf()
    &&& rep.genes@ == members[i].genes@
    &&& rep.fitness == members[i].fitness
    &&& rep.num_inputs == members[i].num_inputs
    &&& rep.num_outputs == members[i].num_outputs
}

/// A cluster of genomes within the compatibility threshold of a shared
/// representative, with the cluster's cached average fitness.
pub struct Species {
    pub representative: Genome,
    pub genomes: Vec<Genome>,
    pub avg_fitness: i64,
}

impl Species {
    /// The representative and every member are coherent genomes.
    pub open spec fn wf(self) -> bool {
        &&& self.representative.wf()
        &&& forall|i: int| 0 <= i < self.genomes@.len() ==> (#[trigger] self.genomes@[i]).wf()
    }

    /// The genetic distance between two genomes, or `None` when no
    /// innovation numbers match (such genomes are never compatible).
    pub fn difference(genome1: &Genome, genome2: &Genome) -> (r: Option<i64>)
        ensures
            match r {
                Some(d) => distance_spec(genome1.genes@, genome2.genes@) == Some(d as int),
                None => distance_spec(genome1.genes@, genome2.genes@) is None,
            },
    {
        let len1 = genome1.genes.len();
        let len2 = genome2.genes.len();
        let mut g1: usize = 0;
        let mut g2: usize = 0;
        let mut excess: u128 = 0;
        let mut disjoint: u128 = 0;
        let mut weight_sum: i64 = 0;
        let mut matches: u128 = 0;

        while g1 < len1 && g2 < len2
            invariant
                g1 <= len1,
                g2 <= len2,
                len1 == genome1.genes@.len(),
                len2 == genome2.genes@.len(),
                excess <= g1 + g2,
                disjoint <= g1 + g2,
                matches <= g1 + g2,
                weight_sum >= 0,
                walk(genome1.genes@, genome2.genes@, 0, 0, no_totals()) == walk(
                    genome1.genes@,
                    genome2.genes@,
                    g1 as int,
                    g2 as int,
                    DiffTotals {
                        excess: excess as int,
                        disjoint: disjoint as int,
                        weight_sum: weight_sum as int,
                        matches: matches as int,
                    },
                ),
            decreases len1 - g1 + len2 - g2,
        {
            let gene1 = genome1.genes[g1];
            let gene2 = genome2.genes[g2];

            if gene1.innovation == gene2.innovation {
                let d: i64 = abs_diff_i64(gene1.weight, gene2.weight);
                weight_sum = crate::fixed::add_sat(weight_sum, d);
                matches = matches + 1;
                g1 = g1 + 1;
                g2 = g2 + 1;
            } else if gene1.innovation > gene2.innovation {
                if g1 == len1 - 1 {
                    excess = excess + 1;
                } else {
                    disjoint = disjoint + 1;
                }
                g2 = g2 + 1;
            } else {
                if g2 == len2 - 1 {
                    excess = excess + 1;
                } else {
                    disjoint = disjoint + 1;
                }
                g1 = g1 + 1;
            }
        }

        // one list is exhausted: the other's remainder counts as excess
        excess = excess + ((len1 - g1) as u128) + ((len2 - g2) as u128);

        if matches == 0 {
            return None;
        }

        let n: u128 = if len1 >= len2 {
            len1 as u128
        } else {
            len2 as u128
        };
        let t1: u128 = (excess * (UNIT as u128)) / n;
        let t2: u128 = (disjoint * (UNIT as u128)) / n;
        let t3: u128 = (weight_sum as u128) / matches;
        proof {
            vstd::arithmetic::div_mod::lemma_div_is_ordered_by_denominator(
                (excess * (UNIT as u128)) as int,
                1,
                n as int,
            );
            vstd::arithmetic::div_mod::lemma_div_is_ordered_by_denominator(
                (disjoint * (UNIT as u128)) as int,
                1,
                n as int,
            );
            vstd::arithmetic::div_mod::lemma_div_is_ordered_by_denominator(
                weight_sum as int,
                1,
                matches as int,
            );
        }
        let total: u128 = t1 + t2 + t3;
        if total > i64::MAX as u128 {
            Some(i64::MAX)
        } else {
            Some(total as i64)
        }
    }

    /// Whether a genome belongs with this species: its distance to the
    /// representative is defined and under the threshold.
    pub fn compatible(&self, genome: &Genome) -> (r: bool)
        ensures
            r == compatible_spec(self.representative, *genome),
    {
        match Species::difference(&self.representative, genome) {
            Some(d) => d < DIFFERENCE_THRESHOLD,
            None => false,
        }
    }

    /// Add a genome to the membership.
    pub fn add_genome(&mut self, genome: Genome)
        ensures
            final(self).genomes@ == old(self).genomes@.push(genome),
            final(self).representative == old(self).representative,
            final(self).avg_fitness == old(self).avg_fitness,
    {
        self.genomes.push(genome);
    }

    /// Cache the mean member fitness (truncated toward zero).
    pub fn calc_average_fitness(&mut self)
        requires
            old(self).genomes@.len() > 0,
        ensures
            final(self).genomes@ == old(self).genomes@,
            final(self).representative == old(self).representative,
            final(self).avg_fitness == clamp_i64(
                tdiv(sum_fitness(old(self).genomes@), old(self).genomes@.len() as int),
            ),
    {
        let mut sum: i128 = 0;
        let mut i: usize = 0;
        while i < self.genomes.len()
            invariant
                i <= self.genomes@.len(),
                sum == sum_fitness(self.genomes@.take(i as int)),
                -(i as int) * (i64::MAX as int + 1) <= sum <= (i as int) * (i64::MAX as int),
            decreases self.genomes@.len() - i,
        {
            proof {
                assert(self.genomes@.take(i as int + 1).drop_last() =~= self.genomes@.take(
                    i as int,
                ));
            }
            sum = sum + (self.genomes[i].fitness as i128);
            i = i + 1;
        }
        proof {
            assert(self.genomes@.take(self.genomes@.len() as int) =~= self.genomes@);
        }
        let avg = crate::fixed::div_trunc_i128(sum, self.genomes.len() as i128);
        self.avg_fitness = crate::fixed::clamp_to_i64(avg);
    }

    /// The cached average fitness.
    pub fn average_fitness(&self) -> (r: i64)
        ensures
            r == self.avg_fitness,
    {
        self.avg_fitness
    }

    /// Sort the members by descending fitness and keep the top half
    /// (rounded down).
    pub fn cull(&mut self)
        ensures
            final(self).genomes@.len() == old(self).genomes@.len() / 2,
            culled_from(old(self).genomes@, final(self).genomes@),
            sorted_desc(final(self).genomes@),
            final(self).representative == old(self).representative,
            final(self).avg_fitness == old(self).avg_fitness,
    {
        let ghost orig = self.genomes@;
        let mut sorted: Vec<Genome> = Vec::new();
        proof {
            broadcast use vstd::multiset::group_multiset_axioms;

            vstd::seq_lib::to_multiset_len::<Genome>(sorted@);
            vstd::multiset::lemma_multiset_empty_len::<Genome>(sorted@.to_multiset());
            assert(sorted@.to_multiset() =~= Multiset::<Genome>::empty());
            assert(sorted@.to_multiset().add(orig.to_multiset()) =~= orig.to_multiset());
        }
        while self.genomes.len() > 0
            invariant
                self.representative == old(self).representative,
                self.avg_fitness == old(self).avg_fitness,
                sorted_desc(sorted@),
                sorted@.len() + self.genomes@.len() == orig.len(),
                sorted@.to_multiset().add(self.genomes@.to_multiset()) =~= orig.to_multiset(),
                forall|i: int, j: int|
                    0 <= i < sorted@.len() && 0 <= j < self.genomes@.len() ==> (
                    #[trigger] sorted@[i]).fitness >= (#[trigger] self.genomes@[j]).fitness,
            decreases self.genomes@.len(),
        {
            let k = max_fitness_index(&self.genomes);
            let ghost before = self.genomes@;
            let ghost sbefore = sorted@;
            let g = self.genomes.remove(k);
            sorted.push(g);
            proof {
                broadcast use vstd::multiset::group_multiset_axioms;

                assert(g == before[k as int]);
                assert(self.genomes@ == before.remove(k as int));
                vstd::seq_lib::to_multiset_remove::<Genome>(before, k as int);
                assert(sorted@ == sbefore.push(g));
                vstd::seq_lib::to_multiset_build::<Genome>(sbefore, g);
                assert(before.contains(g));
                vstd::seq_lib::to_multiset_contains::<Genome>(before, g);
                assert(before.to_multiset().count(g) > 0);
                assert(sorted@.to_multiset().add(self.genomes@.to_multiset())
                    =~= orig.to_multiset()) by {
                    assert forall|x: Genome|
                        sorted@.to_multiset().count(x) + self.genomes@.to_multiset().count(x)
                            == orig.to_multiset().count(x) by {
                        assert(sorted@.to_multiset().count(x) == sbefore.to_multiset().insert(
                            g,
                        ).count(x));
                        assert(self.genomes@.to_multiset().count(x) == before.to_multiset().remove(
                            g,
                        ).count(x));
                        assert(sbefore.to_multiset().count(x) + before.to_multiset().count(x)
                            == orig.to_multiset().count(x));
                    }
                }
            }
        }
        let ghost drained = self.genomes@;
        let ghost full = sorted@;
        proof {
            broadcast use vstd::multiset::group_multiset_axioms;

            assert(full.len() == orig.len());
            assert(full.to_multiset() == orig.to_multiset()) by {
                assert(drained =~= Seq::<Genome>::empty());
                vstd::seq_lib::to_multiset_len::<Genome>(drained);
                vstd::multiset::lemma_multiset_empty_len::<Genome>(drained.to_multiset());
                assert(drained.to_multiset() =~= Multiset::<Genome>::empty());
                assert(full.to_multiset().add(Multiset::<Genome>::empty()) =~= full.to_multiset());
            }
        }
        let half = sorted.len() / 2;
        sorted.truncate(half);
        self.genomes = sorted;
        proof {
            assert(self.genomes@ == full.take((orig.len() / 2) as int));
            assert(culled_from(orig, self.genomes@));
        }
    }

    /// Breed one child from two uniformly random members (which may
    /// coincide).
    pub fn breed_child(&self, rng: &mut RandomSource, registry: &mut InnovationRegistry) -> (child:
        Genome)
        requires
            self.wf(),
            self.genomes@.len() > 0,
            old(registry).count() <= u64::MAX - 3,
        ensures
            child.wf(),
            exists|i: int, j: int| #[trigger] breed_pick(self.genomes@, i, j, child),
            exists|i: int, j: int| #[trigger] bred_pair(self.genomes@, i, j, child),
            old(registry).count() <= final(registry).count() <= old(registry).count() + 3,
    {
        let i = rng.index_below(self.genomes.len());
        let j = rng.index_below(self.genomes.len());
        let child = self.genomes[i].breed(&self.genomes[j], rng, registry);
        proof {
            assert(breed_pick(self.genomes@, i as int, j as int, child));
            assert(bred_pair(self.genomes@, i as int, j as int, child)) by {
                let mid = choose|mid: Genome|
                    #[trigger] mutated_from(mid, child) && (crossed(
                        self.genomes@[i as int],
                        self.genomes@[j as int],
                        mid,
                    ) || clone_of(mid, self.genomes@[i as int]));
                assert(mutated_from(mid, child));
            }
        }
        child
    }

    /// Elect a uniformly random member as the new representative (a
    /// snapshot: a clone, sharing nothing with the member).
    pub fn assign_representative(&mut self, rng: &mut RandomSource)
        requires
            old(self).wf(),
            old(self).genomes@.len() > 0,
        ensures
            final(self).genomes@ == old(self).genomes@,
            final(self).avg_fitness == old(self).avg_fitness,
            final(self).wf(),
            exists|i: int|
                #[trigger] representative_pick(old(self).genomes@, i, final(self).representative),
    {
        let i = rng.index_below(self.genomes.len());
        self.representative = self.genomes[i].clone();
        proof {
            assert(representative_pick(old(self).genomes@, i as int, final(self).representative));
        }
    }
}

/// The absolute difference of two weights, clamped into the `i64` range.
fn abs_diff_i64(a: i64, b: i64) -> (r: i64)
    ensures
        r == clamp_i64(abs_diff(a as int, b as int)),
        r >= 0,
{
    let d: i128 = (a as i128) - (b as i128);
    let m: i128 = if d >= 0 {
        d
    } else {
        -d
    };
    crate::fixed::clamp_to_i64(m)
}

/// The position of a member with the highest fitness.
fn max_fitness_index(v: &Vec<Genome>) -> (k: usize)
    requires
        v@.len() > 0,
    ensures
        k < v@.len(),
        forall|t: int| 0 <= t < v@.len() ==> (#[trigger] v@[t]).fitness <= v@[k as int].fitness,
{
    let mut k: usize = 0;
    let mut i: usize = 1;
    while i < v.len()
        invariant
            k < i <= v@.len(),
            forall|t: int| 0 <= t < i ==> (#[trigger] v@[t]).fitness <= v@[k as int].fitness,
        decreases v@.len() - i,
    {
        if v[i].fitness > v[k].fitness {
            k = i;
        }
        i = i + 1;
    }
    k
}

/// Members kept by a cull come from the original membership.
pub proof fn lemma_culled_members(orig: Seq<Genome>, kept: Seq<Genome>)
    requires
        culled_from(orig, kept),
    ensures
        forall|i: int| 0 <= i < kept.len() ==> orig.contains(#[trigger] kept[i]),
{
    let s = choose|s: Seq<Genome>|
        {
            &&& #[trigger] s.to_multiset() == orig.to_multiset()
            &&& s.len() == orig.len()
            &&& sorted_desc(s)
            &&& kept == s.take((orig.len() / 2) as int)
        };
    assert forall|i: int| 0 <= i < kept.len() implies orig.contains(#[trigger] kept[i]) by {
        assert(kept[i] == s[i]);
        assert(s.contains(s[i]));
        vstd::seq_lib::to_multiset_contains::<Genome>(s, s[i]);
        assert(orig.to_multiset().count(kept[i]) > 0);
        vstd::seq_lib::to_multiset_contains::<Genome>(orig, kept[i]);
    }
}


/// The parallel walk is symmetric when both lists pair up position by
/// position on innovation numbers.
proof fn lemma_walk_symmetric(s1: Seq<Gene>, s2: Seq<Gene>, i: int, acc: DiffTotals)
    requires
        s1.len() == s2.len(),
        forall|t: int| 0 <= t < s1.len() ==> (#[trigger] s1[t]).innovation == s2[t].innovation,
        0 <= i,
    ensures
        walk(s1, s2, i, i, acc) == walk(s2, s1, i, i, acc),
    decreases s1.len() - i,
{
    if i < s1.len() {
        let d = clamp_i64(abs_diff(s1[i].weight as int, s2[i].weight as int));
        assert(d == clamp_i64(abs_diff(s2[i].weight as int, s1[i].weight as int)));
        lemma_walk_symmetric(
            s1,
            s2,
            i + 1,
            DiffTotals { weight_sum: clamp_i64(acc.weight_sum + d), matches: acc.matches + 1, ..acc },
        );
    }
}

/// Law: genetic distance is symmetric for gene lists of equal length whose
/// innovation numbers agree position by position.
pub proof fn lemma_difference_symmetric(s1: Seq<Gene>, s2: Seq<Gene>)
    requires
        s1.len() == s2.len(),
        forall|t: int| 0 <= t < s1.len() ==> (#[trigger] s1[t]).innovation == s2[t].innovation,
    ensures
        distance_spec(s1, s2) == distance_spec(s2, s1),
{
    lemma_walk_symmetric(s1, s2, 0, no_totals());
}

/// Walking a list against itself only counts matches of weight zero.
proof fn lemma_walk_self(s: Seq<Gene>, i: int, acc: DiffTotals)
    requires
        0 <= i <= s.len(),
        i64::MIN <= acc.weight_sum <= i64::MAX,
    ensures
        walk(s, s, i, i, acc) == (DiffTotals { matches: acc.matches + s.len() - i, ..acc }),
    decreases s.len() - i,
{
    if i < s.len() {
        assert(abs_diff(s[i].weight as int, s[i].weight as int) == 0);
        assert(clamp_i64(acc.weight_sum + 0) == acc.weight_sum);
        lemma_walk_self(
            s,
            i + 1,
            DiffTotals {
                weight_sum: clamp_i64(acc.weight_sum + 0),
                matches: acc.matches + 1,
                ..acc
            },
        );
    }
}

/// Law: the distance between identical non-empty gene lists is zero.
pub proof fn lemma_difference_self_zero(s: Seq<Gene>)
    requires
        s.len() > 0,
    ensures
        distance_spec(s, s) == Some(0int),
{
    lemma_walk_self(s, 0, no_totals());
    let t = walk(s, s, 0, 0, no_totals());
    assert(t.matches == s.len());
    assert(t.excess == 0 && t.disjoint == 0 && t.weight_sum == 0);
    let n = s.len() as int;
    assert(tdiv(0 * UNIT, n) == 0) by {
        vstd::arithmetic::div_mod::lemma_div_of0(n);
    }
    assert(tdiv(0, t.matches) == 0) by {
        vstd::arithmetic::div_mod::lemma_div_of0(t.matches);
    }
    assert(clamp_i64(0) == 0);
}


/// The kept members, some dropped members, and the original membership: the
/// two halves together are the original, and every kept member's fitness is
/// at least every dropped member's.
pub open spec fn outranks_dropped(kept: Seq<Genome>, dropped: Seq<Genome>, orig: Seq<Genome>) -> bool {
    &&& (kept + dropped).to_multiset() == orig.to_multiset()
    &&& forall|i: int, j: int|
        0 <= i < kept.len() && 0 <= j < dropped.len() ==> (#[trigger] kept[i]).fitness >= (
        #[trigger] dropped[j]).fitness
}

/// Law: a cull keeps the top of the fitness order — the survivors are half
/// the membership (rounded down), and each outranks everything dropped.
pub proof fn lemma_cull_keeps_top(orig: Seq<Genome>, kept: Seq<Genome>)
    requires
        culled_from(orig, kept),
    ensures
        kept.len() == orig.len() / 2,
        exists|dropped: Seq<Genome>| #[trigger] outranks_dropped(kept, dropped, orig),
{
    let s = choose|s: Seq<Genome>|
        {
            &&& #[trigger] s.to_multiset() == orig.to_multiset()
            &&& s.len() == orig.len()
            &&& sorted_desc(s)
            &&& kept == s.take((orig.len() / 2) as int)
        };
    let half = (orig.len() / 2) as int;
    let dropped = s.skip(half);
    assert(kept + dropped =~= s);
    assert((kept + dropped).to_multiset() == orig.to_multiset());
    assert forall|i: int, j: int|
        0 <= i < kept.len() && 0 <= j < dropped.len() implies (#[trigger] kept[i]).fitness >= (
    #[trigger] dropped[j]).fitness by {
        assert(kept[i] == s[i]);
        assert(dropped[j] == s[half + j]);
    }
    assert(outranks_dropped(kept, dropped, orig));
}

} // verus!
