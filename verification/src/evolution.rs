//! The evolution driver: each generation, classify genomes into species,
//! cull, elect representatives, and reproduce by fitness share.

use vstd::prelude::*;
use crate::fixed::{tdiv_any, tdiv, clamp_i64};
use crate::genetics::{Genome, InnovationRegistry, clone_of};
use crate::random::RandomSource;
use crate::taxonomy::{Species, species_nums, culled_from, lemma_culled_members, breed_pick,
    representative_pick, compatible_spec, sum_fitness};

verus! {

/// Every member of every species has the given arity.
pub open spec fn all_nums(sp: Seq<Species>, ni: u64, no: u64) -> bool {
    forall|k: int| 0 <= k < sp.len() ==> species_nums(#[trigger] sp[k], ni, no)
}

/// Every genome of the sequence has the given arity.
pub open spec fn genomes_nums(gs: Seq<Genome>, ni: u64, no: u64) -> bool {
    forall|i: int|
        0 <= i < gs.len() ==> (#[trigger] gs[i]).num_inputs == ni && gs[i].num_outputs == no
}

/// How many offspring a species with average fitness `avg` is allotted out
/// of `target`, given the total average fitness `total`: the floor of its
/// fitness share of the target, clamped to the representable range. A
/// negative share, or a zero total, allots nothing.
pub open spec fn share_spec(avg: int, total: int, target: int) -> int {
    if total == 0 {
        0
    } else {
        let q = tdiv_any(avg * target, total);
        if q < 0 {
            0
        } else if q > usize::MAX as int {
            usize::MAX as int
        } else {
            q
        }
    }
}


/// The position of the first species whose representative is compatible
/// with `g`, from `i` on; the list length when none is.
pub open spec fn first_compatible(sp: Seq<Species>, g: Genome, i: int) -> int
    decreases sp.len() - i,
{
    if i < 0 || i >= sp.len() {
        sp.len() as int
    } else if compatible_spec(sp[i].representative, g) {
        i
    } else {
        first_compatible(sp, g, i + 1)
    }
}

/// `g` placed into the species list: appended to the members of the first
/// compatible species; where none is compatible, a new species at the end
/// with `g` as sole member and a fresh clone of it as representative.
pub open spec fn placed(pre: Seq<Species>, g: Genome, post: Seq<Species>) -> bool {
    let i = first_compatible(pre, g, 0);
    if i < pre.len() {
        &&& post.len() == pre.len()
        &&& forall|k: int| 0 <= k < pre.len() && k != i ==> post[k] == pre[k]
        &&& post[i].genomes@ == pre[i].genomes@.push(g)
        &&& post[i].representative == pre[i].representative
        &&& post[i].avg_fitness == pre[i].avg_fitness
    } else {
        &&& post.len() == pre.len() + 1
        &&& forall|k: int| 0 <= k < pre.len() ==> post[k] == pre[k]
        &&& post[pre.len() as int].genomes@ == seq![g]
        &&& clone_of(post[pre.len() as int].representative, g)
        &&& post[pre.len() as int].avg_fitness == 0
    }
}

/// One genome classified: a fresh clone of it is placed.
pub open spec fn classified_one(pre: Seq<Species>, g: Genome, post: Seq<Species>) -> bool {
    exists|c: Genome| #[trigger] clone_of(c, g) && placed(pre, c, post)
}

/// The first `k` genomes classified in order.
pub open spec fn classified_upto(
    pre: Seq<Species>,
    gs: Seq<Genome>,
    k: int,
    post: Seq<Species>,
) -> bool
    decreases k,
{
    if k <= 0 {
        post == pre
    } else if k > gs.len() {
        false
    } else {
        exists|mid: Seq<Species>|
            #[trigger] classified_one(mid, gs[k - 1], post) && classified_upto(pre, gs, k - 1, mid)
    }
}

/// One species scored and culled: its average fitness becomes the truncated
/// member mean and only the top half (rounded down) of the membership stays.
pub open spec fn avg_culled_one(pre: Species, post: Species) -> bool {
    &&& post.representative == pre.representative
    &&& post.avg_fitness == clamp_i64(tdiv(sum_fitness(pre.genomes@), pre.genomes@.len() as int))
    &&& culled_from(pre.genomes@, post.genomes@)
    &&& post.genomes@.len() == pre.genomes@.len() / 2
}

/// Every species scored and culled, in place.
pub open spec fn avg_culled(pre: Seq<Species>, post: Seq<Species>) -> bool {
    &&& post.len() == pre.len()
    &&& forall|k: int| 0 <= k < pre.len() ==> avg_culled_one(#[trigger] pre[k], post[k])
}

/// The species among the first `k` that still have members, in order.
pub open spec fn surviving(sp: Seq<Species>, k: int) -> Seq<Species>
    decreases k,
{
    if k <= 0 || k > sp.len() {
        Seq::empty()
    } else {
        let p = surviving(sp, k - 1);
        if sp[k - 1].genomes@.len() > 0 {
            p.push(sp[k - 1])
        } else {
            p
        }
    }
}

/// Fresh random representatives: memberships and averages unchanged, each
/// representative a clone of one of its species' members.
pub open spec fn reps_refreshed(pre: Seq<Species>, post: Seq<Species>) -> bool {
    &&& post.len() == pre.len()
    &&& forall|k: int|
        0 <= k < pre.len() ==> (#[trigger] post[k]).genomes@ == pre[k].genomes@
            && post[k].avg_fitness == pre[k].avg_fitness && (exists|i: int|
            representative_pick(pre[k].genomes@, i, post[k].representative))
}

/// The whole classify, score, cull, prune and elect pipeline from the
/// species held before a generation to those held after it.
pub open spec fn species_pipeline(pre: Seq<Species>, gs: Seq<Genome>, post: Seq<Species>) -> bool {
    exists|mid1: Seq<Species>, mid2: Seq<Species>|
        #![trigger avg_culled(mid1, mid2)]
        classified_upto(pre, gs, gs.len() as int, mid1) && avg_culled(mid1, mid2)
            && reps_refreshed(surviving(mid2, mid2.len() as int), post)
}

/// The total average fitness of the first `k` species.
pub open spec fn total_avg(sp: Seq<Species>, k: int) -> int
    decreases k,
{
    if k <= 0 || k > sp.len() {
        0
    } else {
        total_avg(sp, k - 1) + sp[k - 1].avg_fitness
    }
}

/// The offspring allotted to the first `k` species together.
pub open spec fn share_sum(sp: Seq<Species>, k: int, total: int, target: int) -> int
    decreases k,
{
    if k <= 0 || k > sp.len() {
        0
    } else {
        share_sum(sp, k - 1, total, target) + share_spec(
            sp[k - 1].avg_fitness as int,
            total,
            target,
        )
    }
}

/// A child bred from two members of one of the species.
pub open spec fn bred_from_species(sp: Seq<Species>, child: Genome) -> bool {
    exists|s: int, i: int, j: int|
        0 <= s < sp.len() && #[trigger] breed_pick(sp[s].genomes@, i, j, child)
}

/// Everything one generation guarantees: the species pipeline carries the
/// old species and the given genomes to the new species; every offspring is
/// bred from some final species' members; and the offspring count is
/// exactly the fitness-share allotment over the final species — unless the
/// innovation counter neared exhaustion, where breeding stops issuing.
pub open spec fn generation_post(
    pre: Seq<Species>,
    gs: Seq<Genome>,
    post: Seq<Species>,
    offspring: Seq<Genome>,
    reg_final: u64,
) -> bool {
    &&& species_pipeline(pre, gs, post)
    &&& forall|i: int|
        0 <= i < offspring.len() ==> bred_from_species(post, #[trigger] offspring[i])
    &&& (offspring.len() == share_sum(
        post,
        post.len() as int,
        total_avg(post, post.len() as int),
        gs.len() as int,
    ) || reg_final > u64::MAX - 3)
}

/// Scanning past incompatible species finds the first compatible one.
proof fn lemma_first_compatible_from(sp: Seq<Species>, g: Genome, t: int, i: int)
    requires
        0 <= t <= i <= sp.len(),
        forall|u: int| t <= u < i ==> !compatible_spec((#[trigger] sp[u]).representative, g),
        i < sp.len() ==> compatible_spec(sp[i].representative, g),
    ensures
        first_compatible(sp, g, t) == if i < sp.len() {
            i
        } else {
            sp.len() as int
        },
    decreases i - t,
{
    if t < i {
        lemma_first_compatible_from(sp, g, t + 1, i);
    }
}

/// How many offspring a species is allotted.
fn offspring_share(avg: i64, total: i128, target: usize) -> (n: usize)
    requires
        -0x8000_0000_0000_0000_0000_0000_0000_0000 < total,
    ensures
        n == share_spec(avg as int, total as int, target as int),
{
    if total == 0 {
        return 0;
    }
    proof {
        assert((avg as int) * (target as int) <= 0x8000_0000_0000_0000_0000_0000_0000_0000
            - 0x8000_0000_0000_0000 && (avg as int) * (target as int)
            >= -0x8000_0000_0000_0000_0000_0000_0000_0000 + 0x8000_0000_0000_0000)
            by (nonlinear_arith)
            requires
                -0x8000_0000_0000_0000 <= avg <= 0x7FFF_FFFF_FFFF_FFFF,
                0 <= target <= 0xFFFF_FFFF_FFFF_FFFF,
        ;
    }
    let prod: i128 = (avg as i128) * (target as i128);
    let q: i128 = crate::fixed::div_trunc_any_i128(prod, total);
    if q < 0 {
        0
    } else if q > usize::MAX as i128 {
        usize::MAX
    } else {
        q as usize
    }
}

/// Holds all species and the innovation registry, and produces each next
/// generation.
pub struct Creator {
    pub species: Vec<Species>,
    pub registry: InnovationRegistry,
}

impl Creator {
    /// Every species is coherent and has at least one member.
    pub open spec fn wf(self) -> bool {
        forall|k: int|
            0 <= k < self.species@.len() ==> (#[trigger] self.species@[k]).wf()
                && self.species@[k].genomes@.len() > 0
    }

    /// A creator with no species and a fresh innovation registry.
    pub fn new() -> (r: Creator)
        ensures
            r.wf(),
            r.species@.len() == 0,
            r.registry.count() == 0,
    {
        Creator { species: Vec::new(), registry: InnovationRegistry::new() }
    }

    /// Classify one genome: it joins the first species it is compatible
    /// with, or founds a new species as representative and sole member.
    #[verifier::loop_isolation(false)]
    fn add_genome(&mut self, genome: Genome)
        requires
            old(self).wf(),
            genome.wf(),
        ensures
            final(self).wf(),
            final(self).registry == old(self).registry,
            placed(old(self).species@, genome, final(self).species@),
            forall|ni: u64, no: u64|
                #[trigger] all_nums(old(self).species@, ni, no) && genome.num_inputs == ni
                    && genome.num_outputs == no ==> all_nums(final(self).species@, ni, no),
    {
        let mut i: usize = 0;
        while i < self.species.len()
            invariant
                i <= self.species@.len(),
                *self == *old(self),
                forall|t: int|
                    0 <= t < i ==> !compatible_spec(
                        (#[trigger] self.species@[t]).representative,
                        genome,
                    ),
            decreases self.species@.len() - i,
        {
            if self.species[i].compatible(&genome) {
                proof {
                    lemma_first_compatible_from(old(self).species@, genome, 0, i as int);
                }
                self.species[i].add_genome(genome);
                proof {
                    assert(placed(old(self).species@, genome, self.species@)) by {
                        assert(first_compatible(old(self).species@, genome, 0) == i as int);
                        assert(self.species@[i as int].genomes@ == old(
                            self,
                        ).species@[i as int].genomes@.push(genome));
                    }
                    assert forall|k: int| 0 <= k < self.species@.len() implies (
                    #[trigger] self.species@[k]).wf() && self.species@[k].genomes@.len() > 0 by {
                        assert(old(self).species@[k].wf());
                        if k == i as int {
                            assert(self.species@[k].genomes@ == old(
                                self,
                            ).species@[k].genomes@.push(genome));
                            assert forall|m: int|
                                0 <= m < self.species@[k].genomes@.len() implies (
                            #[trigger] self.species@[k].genomes@[m]).wf() by {
                                if m < old(self).species@[k].genomes@.len() {
                                    assert(old(self).species@[k].genomes@[m].wf());
                                }
                            }
                        } else {
                            assert(self.species@[k] == old(self).species@[k]);
                        }
                    }
                    assert forall|ni: u64, no: u64|
                        #[trigger] all_nums(old(self).species@, ni, no) && genome.num_inputs == ni
                            && genome.num_outputs == no implies all_nums(
                        self.species@,
                        ni,
                        no,
                    ) by {
                        assert forall|k: int| 0 <= k < self.species@.len() implies species_nums(
                            #[trigger] self.species@[k],
                            ni,
                            no,
                        ) by {
                            assert(species_nums(old(self).species@[k], ni, no));
                            if k == i as int {
                                assert(self.species@[k].genomes@ == old(
                                    self,
                                ).species@[k].genomes@.push(genome));
                            }
                        }
                    }
                }
                return;
            }
            i = i + 1;
        }
        proof {
            lemma_first_compatible_from(
                old(self).species@,
                genome,
                0,
                old(self).species@.len() as int,
            );
        }
        let representative = genome.clone();
        let sp = Species { representative, genomes: vec![genome], avg_fitness: 0 };
        self.species.push(sp);
        proof {
            assert(final(self).species@ == old(self).species@.push(sp));
            assert(sp.genomes@.len() == 1);
            assert(sp.genomes@[0] == genome);
            assert(placed(old(self).species@, genome, self.species@)) by {
                assert(first_compatible(old(self).species@, genome, 0) == old(
                    self,
                ).species@.len() as int);
                assert(sp.genomes@ =~= seq![genome]);
                assert(clone_of(sp.representative, genome));
            }
            assert forall|ni: u64, no: u64|
                #[trigger] all_nums(old(self).species@, ni, no) && genome.num_inputs == ni
                    && genome.num_outputs == no implies all_nums(self.species@, ni, no) by {
                assert forall|k: int| 0 <= k < self.species@.len() implies species_nums(
                    #[trigger] self.species@[k],
                    ni,
                    no,
                ) by {
                    if k < old(self).species@.len() {
                        assert(species_nums(old(self).species@[k], ni, no));
                    } else {
                        assert(self.species@[k] == sp);
                    }
                }
            }
        }
    }

    /// One generation. Classify the given genomes into species (first
    /// compatible species wins, a new one otherwise); recompute each
    /// species' average fitness and cull its bottom half; drop species left
    /// empty; elect fresh random representatives; then let each species
    /// breed offspring in proportion to its share of the total average
    /// fitness, floor-rounded — so the returned population may fall short of
    /// the input count. Afterwards no species is empty, and every returned
    /// genome is coherent, with a valid network. When every prior member and
    /// every given genome share one arity, so do all offspring.
    pub fn next_generation(&mut self, genomes: Vec<&Genome>, rng: &mut RandomSource) -> (offspring:
        Vec<Genome>)
        requires
            old(self).wf(),
            forall|i: int| 0 <= i < genomes@.len() ==> (#[trigger] genomes@[i]).wf(),
        ensures
            final(self).wf(),
            forall|k: int|
                0 <= k < final(self).species@.len()
                    ==> (#[trigger] final(self).species@[k]).genomes@.len() > 0,
            forall|i: int| 0 <= i < offspring@.len() ==> (#[trigger] offspring@[i]).wf(),
            forall|ni: u64, no: u64|
                (#[trigger] all_nums(old(self).species@, ni, no) && (forall|i: int|
                    0 <= i < genomes@.len() ==> (#[trigger] genomes@[i]).num_inputs == ni
                        && genomes@[i].num_outputs == no)) ==> (all_nums(
                    final(self).species@,
                    ni,
                    no,
                ) && genomes_nums(offspring@, ni, no)),
            generation_post(
                old(self).species@,
                genomes@.map_values(|g: &Genome| *g),
                final(self).species@,
                offspring@,
                final(self).registry.count(),
            ),
            old(self).registry.count() <= final(self).registry.count() <= old(
                self,
            ).registry.count() + 3 * offspring@.len(),
    {
        let ghost gseq = genomes@;
        let ghost gvals = gseq.map_values(|g: &Genome| *g);
        // classify the genomes into species
        let mut i: usize = 0;
        while i < genomes.len()
            invariant
                i <= gseq.len(),
                genomes@ == gseq,
                gvals == gseq.map_values(|g: &Genome| *g),
                forall|t: int| 0 <= t < gseq.len() ==> (#[trigger] gseq[t]).wf(),
                self.wf(),
                self.registry == old(self).registry,
                classified_upto(old(self).species@, gvals, i as int, self.species@),
                forall|ni: u64, no: u64|
                    (#[trigger] all_nums(old(self).species@, ni, no) && (forall|t: int|
                        0 <= t < gseq.len() ==> (#[trigger] gseq[t]).num_inputs == ni
                            && gseq[t].num_outputs == no)) ==> all_nums(self.species@, ni, no),
            decreases gseq.len() - i,
        {
            let g: &Genome = genomes[i];
            let ghost pre_sp = self.species@;
            let copy = g.clone();
            let ghost cg = copy;
            self.add_genome(copy);
            proof {
                assert(gvals[i as int] == *gseq[i as int]);
                assert(clone_of(cg, gvals[i as int]));
                assert(placed(pre_sp, cg, self.species@));
                assert(classified_one(pre_sp, gvals[i as int], self.species@));
                assert(classified_upto(old(self).species@, gvals, i as int + 1, self.species@))
                    by {
                    let k = i as int + 1;
                    assert(classified_one(pre_sp, gvals[k - 1], self.species@));
                    assert(classified_upto(old(self).species@, gvals, k - 1, pre_sp));
                }
            }
            i = i + 1;
        }
        let ghost mid1 = self.species@;

        // recompute average fitness, then cull the bottom half of each species
        let mut k: usize = 0;
        while k < self.species.len()
            invariant
                k <= self.species@.len(),
                self.registry == old(self).registry,
                self.species@.len() == mid1.len(),
                forall|t: int| 0 <= t < k ==> avg_culled_one(#[trigger] mid1[t], self.species@[t]),
                forall|t: int| k <= t < mid1.len() ==> #[trigger] self.species@[t] == mid1[t],
                forall|t: int| 0 <= t < self.species@.len() ==> (#[trigger] self.species@[t]).wf(),
                forall|t: int|
                    k <= t < self.species@.len() ==> (#[trigger] self.species@[t]).genomes@.len()
                        > 0,
                forall|ni: u64, no: u64|
                    (#[trigger] all_nums(old(self).species@, ni, no) && (forall|t: int|
                        0 <= t < gseq.len() ==> (#[trigger] gseq[t]).num_inputs == ni
                            && gseq[t].num_outputs == no)) ==> all_nums(self.species@, ni, no),
            decreases self.species@.len() - k,
        {
            let ghost pre = self.species@;
            self.species[k].calc_average_fitness();
            let ghost mid = self.species@;
            self.species[k].cull();
            proof {
                assert(mid[k as int].genomes@ == pre[k as int].genomes@);
                assert(culled_from(mid[k as int].genomes@, self.species@[k as int].genomes@));
                lemma_culled_members(mid[k as int].genomes@, self.species@[k as int].genomes@);
                assert(avg_culled_one(mid1[k as int], self.species@[k as int])) by {
                    assert(pre[k as int] == mid1[k as int]);
                }
                assert forall|t: int| 0 <= t < self.species@.len() implies (
                #[trigger] self.species@[t]).wf() by {
                    if t == k as int {
                        assert(pre[t].wf());
                        assert forall|m: int|
                            0 <= m < self.species@[t].genomes@.len() implies (
                        #[trigger] self.species@[t].genomes@[m]).wf() by {
                            let g = self.species@[t].genomes@[m];
                            assert(pre[t].genomes@.contains(g));
                            let w = choose|w: int|
                                0 <= w < pre[t].genomes@.len() && pre[t].genomes@[w] == g;
                            assert(pre[t].genomes@[w].wf());
                        }
                    } else {
                        assert(self.species@[t] == pre[t]);
                    }
                }
                assert forall|ni: u64, no: u64|
                    (#[trigger] all_nums(old(self).species@, ni, no) && (forall|t: int|
                        0 <= t < gseq.len() ==> (#[trigger] gseq[t]).num_inputs == ni
                            && gseq[t].num_outputs == no)) implies all_nums(
                    self.species@,
                    ni,
                    no,
                ) by {
                    assert(all_nums(mid, ni, no));
                    assert forall|t: int| 0 <= t < self.species@.len() implies species_nums(
                        #[trigger] self.species@[t],
                        ni,
                        no,
                    ) by {
                        assert(species_nums(mid[t], ni, no));
                        if t == k as int {
                            assert forall|m: int|
                                0 <= m < self.species@[t].genomes@.len() implies (
                            #[trigger] self.species@[t].genomes@[m]).num_inputs == ni
                                && self.species@[t].genomes@[m].num_outputs == no by {
                                let g = self.species@[t].genomes@[m];
                                assert(mid[t].genomes@.contains(g));
                                let w = choose|w: int|
                                    0 <= w < mid[t].genomes@.len() && mid[t].genomes@[w] == g;
                                assert(mid[t].genomes@[w].num_inputs == ni);
                            }
                        }
                    }
                }
            }
            k = k + 1;
        }

        let ghost mid2 = self.species@;
        proof {
            assert(avg_culled(mid1, mid2));
        }

        // drop the species that culling emptied, keeping the others in order
        let mut survivors: Vec<Species> = Vec::new();
        while self.species.len() > 0
            invariant
                self.registry == old(self).registry,
                self.species@.len() <= mid2.len(),
                self.species@ == mid2.subrange(
                    mid2.len() - self.species@.len(),
                    mid2.len() as int,
                ),
                survivors@ == surviving(mid2, mid2.len() - self.species@.len()),
                forall|t: int|
                    0 <= t < self.species@.len() ==> (#[trigger] self.species@[t]).wf(),
                forall|t: int| 0 <= t < survivors@.len() ==> (#[trigger] survivors@[t]).wf(),
                forall|t: int|
                    0 <= t < survivors@.len() ==> (#[trigger] survivors@[t]).genomes@.len() > 0,
                forall|ni: u64, no: u64|
                    (#[trigger] all_nums(old(self).species@, ni, no) && (forall|t: int|
                        0 <= t < gseq.len() ==> (#[trigger] gseq[t]).num_inputs == ni
                            && gseq[t].num_outputs == no)) ==> (all_nums(self.species@, ni, no)
                        && all_nums(survivors@, ni, no)),
            decreases self.species@.len(),
        {
            let ghost pre = self.species@;
            let ghost spre = survivors@;
            let ghost done = mid2.len() - pre.len();
            let sp = self.species.remove(0);
            let keep = sp.genomes.len() > 0;
            if keep {
                survivors.push(sp);
            }
            proof {
                assert(sp == mid2[done]);
                assert(self.species@ =~= mid2.subrange(done + 1, mid2.len() as int));
                assert(survivors@ == surviving(mid2, done + 1));
                assert forall|ni: u64, no: u64|
                    (#[trigger] all_nums(old(self).species@, ni, no) && (forall|t: int|
                        0 <= t < gseq.len() ==> (#[trigger] gseq[t]).num_inputs == ni
                            && gseq[t].num_outputs == no)) implies (all_nums(self.species@, ni, no)
                        && all_nums(survivors@, ni, no)) by {
                    assert(all_nums(pre, ni, no));
                    assert(all_nums(spre, ni, no));
                    assert forall|t: int| 0 <= t < self.species@.len() implies species_nums(
                        #[trigger] self.species@[t],
                        ni,
                        no,
                    ) by {
                        assert(self.species@[t] == pre[t + 1]);
                        assert(species_nums(pre[t + 1], ni, no));
                    }
                    assert forall|t: int| 0 <= t < survivors@.len() implies species_nums(
                        #[trigger] survivors@[t],
                        ni,
                        no,
                    ) by {
                        if t < spre.len() {
                            assert(species_nums(spre[t], ni, no));
                        } else {
                            assert(survivors@[t] == pre[0]);
                            assert(species_nums(pre[0], ni, no));
                        }
                    }
                }
            }
        }
        self.species = survivors;
        let ghost mid3 = self.species@;
        proof {
            assert(mid3 == surviving(mid2, mid2.len() as int));
        }

        // elect a fresh random representative for each surviving species
        let mut k2: usize = 0;
        while k2 < self.species.len()
            invariant
                k2 <= self.species@.len(),
                self.registry == old(self).registry,
                self.species@.len() == mid3.len(),
                forall|t: int|
                    0 <= t < k2 ==> (#[trigger] self.species@[t]).genomes@ == mid3[t].genomes@
                        && self.species@[t].avg_fitness == mid3[t].avg_fitness && (exists|i2: int|
                        representative_pick(
                            mid3[t].genomes@,
                            i2,
                            self.species@[t].representative,
                        )),
                forall|t: int| k2 <= t < mid3.len() ==> #[trigger] self.species@[t] == mid3[t],
                forall|t: int| 0 <= t < self.species@.len() ==> (#[trigger] self.species@[t]).wf(),
                forall|t: int|
                    0 <= t < self.species@.len() ==> (#[trigger] self.species@[t]).genomes@.len()
                        > 0,
                forall|ni: u64, no: u64|
                    (#[trigger] all_nums(old(self).species@, ni, no) && (forall|t: int|
                        0 <= t < gseq.len() ==> (#[trigger] gseq[t]).num_inputs == ni
                            && gseq[t].num_outputs == no)) ==> all_nums(self.species@, ni, no),
            decreases self.species@.len() - k2,
        {
            let ghost pre = self.species@;
            self.species[k2].assign_representative(rng);
            proof {
                assert(pre[k2 as int] == mid3[k2 as int]);
                let w = choose|i2: int|
                    representative_pick(
                        pre[k2 as int].genomes@,
                        i2,
                        self.species@[k2 as int].representative,
                    );
                assert(representative_pick(
                    mid3[k2 as int].genomes@,
                    w,
                    self.species@[k2 as int].representative,
                ));
                assert forall|t: int|
                    0 <= t < k2 as int + 1 implies (#[trigger] self.species@[t]).genomes@
                    == mid3[t].genomes@ && self.species@[t].avg_fitness == mid3[t].avg_fitness && (
                exists|i2: int|
                    representative_pick(
                        mid3[t].genomes@,
                        i2,
                        self.species@[t].representative,
                    )) by {
                    if t < k2 as int {
                        assert(self.species@[t] == pre[t]);
                    }
                }
                assert forall|t: int| 0 <= t < self.species@.len() implies (
                #[trigger] self.species@[t]).wf() && self.species@[t].genomes@.len() > 0
                    && (forall|ni: u64, no: u64|
                    species_nums(#[trigger] pre[t], ni, no) ==> species_nums(
                        self.species@[t],
                        ni,
                        no,
                    )) by {
                    if t != k2 as int {
                        assert(self.species@[t] == pre[t]);
                    } else {
                        assert(self.species@[t].genomes@ == pre[t].genomes@);
                    }
                }
            }
            k2 = k2 + 1;
        }

        let ghost settled = self.species@;
        proof {
            assert(reps_refreshed(mid3, settled));
            assert(species_pipeline(old(self).species@, gvals, settled)) by {
                assert(classified_upto(old(self).species@, gvals, gvals.len() as int, mid1));
                assert(avg_culled(mid1, mid2));
                assert(reps_refreshed(surviving(mid2, mid2.len() as int), settled));
            }
        }

        // reproduce in proportion to each species' share of the total
        // average fitness
        let num_offspring = genomes.len();
        let mut total: i128 = 0;
        let mut k3: usize = 0;
        while k3 < self.species.len()
            invariant
                k3 <= self.species@.len(),
                self.species@ == settled,
                total == total_avg(settled, k3 as int),
                -(k3 as int) * (i64::MAX as int + 1) <= total <= (k3 as int) * (i64::MAX as int),
            decreases self.species@.len() - k3,
        {
            total = total + (self.species[k3].average_fitness() as i128);
            k3 = k3 + 1;
        }

        let mut offspring: Vec<Genome> = Vec::new();
        let mut k4: usize = 0;
        while k4 < self.species.len()
            invariant
                self.species@ == settled,
                k4 <= self.species@.len(),
                num_offspring == gseq.len(),
                -0x8000_0000_0000_0000_0000_0000_0000_0000 < total,
                old(self).registry.count() <= self.registry.count() <= old(
                    self,
                ).registry.count() + 3 * offspring@.len(),
                offspring@.len() == share_sum(settled, k4 as int, total as int, num_offspring as int)
                    || self.registry.count() > u64::MAX - 3,
                forall|t: int|
                    0 <= t < offspring@.len() ==> bred_from_species(
                        settled,
                        #[trigger] offspring@[t],
                    ),
                forall|t: int| 0 <= t < self.species@.len() ==> (#[trigger] self.species@[t]).wf(),
                forall|t: int|
                    0 <= t < self.species@.len() ==> (#[trigger] self.species@[t]).genomes@.len()
                        > 0,
                forall|t: int| 0 <= t < offspring@.len() ==> (#[trigger] offspring@[t]).wf(),
                forall|ni: u64, no: u64|
                    (#[trigger] all_nums(old(self).species@, ni, no) && (forall|t: int|
                        0 <= t < gseq.len() ==> (#[trigger] gseq[t]).num_inputs == ni
                            && gseq[t].num_outputs == no)) ==> (all_nums(self.species@, ni, no)
                        && genomes_nums(offspring@, ni, no)),
            decreases self.species@.len() - k4,
        {
            let avg = self.species[k4].average_fitness();
            let share = offspring_share(avg, total, num_offspring);
            let mut c: usize = 0;
            while c < share
                invariant
                    self.species@ == settled,
                    c <= share,
                    k4 < self.species@.len(),
                    num_offspring == gseq.len(),
                    -0x8000_0000_0000_0000_0000_0000_0000_0000 < total,
                    old(self).registry.count() <= self.registry.count() <= old(
                        self,
                    ).registry.count() + 3 * offspring@.len(),
                    share == share_spec(
                        settled[k4 as int].avg_fitness as int,
                        total as int,
                        num_offspring as int,
                    ),
                    offspring@.len() == share_sum(
                        settled,
                        k4 as int,
                        total as int,
                        num_offspring as int,
                    ) + c || self.registry.count() > u64::MAX - 3,
                    forall|t: int|
                        0 <= t < offspring@.len() ==> bred_from_species(
                            settled,
                            #[trigger] offspring@[t],
                        ),
                    forall|t: int|
                        0 <= t < self.species@.len() ==> (#[trigger] self.species@[t]).wf(),
                    forall|t: int|
                        0 <= t < self.species@.len() ==> (
                        #[trigger] self.species@[t]).genomes@.len() > 0,
                    forall|t: int| 0 <= t < offspring@.len() ==> (#[trigger] offspring@[t]).wf(),
                    forall|ni: u64, no: u64|
                        (#[trigger] all_nums(old(self).species@, ni, no) && (forall|t: int|
                            0 <= t < gseq.len() ==> (#[trigger] gseq[t]).num_inputs == ni
                                && gseq[t].num_outputs == no)) ==> (all_nums(self.species@, ni, no)
                            && genomes_nums(offspring@, ni, no)),
                decreases share - c,
            {
                // innovation numbers saturate just short of the counter's
                // end: a run that long is out of reach, but the guard keeps
                // the arithmetic honest
                if self.registry.can_issue(3) {
                    let ghost opre = offspring@;
                    let child = self.species[k4].breed_child(rng, &mut self.registry);
                    offspring.push(child);
                    proof {
                        assert(bred_from_species(settled, child)) by {
                            let (bi2, bj2): (int, int) = choose|bi2: int, bj2: int|
                                #[trigger] breed_pick(
                                    settled[k4 as int].genomes@,
                                    bi2,
                                    bj2,
                                    child,
                                );
                            assert((k4 as int) < settled.len());
                        }
                        assert forall|ni: u64, no: u64|
                            (#[trigger] all_nums(old(self).species@, ni, no) && (forall|t: int|
                                0 <= t < gseq.len() ==> (#[trigger] gseq[t]).num_inputs == ni
                                    && gseq[t].num_outputs == no)) implies (all_nums(
                            self.species@,
                            ni,
                            no,
                        ) && genomes_nums(offspring@, ni, no)) by {
                            assert(genomes_nums(opre, ni, no));
                            assert(species_nums(self.species@[k4 as int], ni, no));
                            let (bi, bj): (int, int) = choose|bi: int, bj: int|
                                #[trigger] breed_pick(
                                    self.species@[k4 as int].genomes@,
                                    bi,
                                    bj,
                                    child,
                                );
                            assert forall|t: int| 0 <= t < offspring@.len() implies (
                            #[trigger] offspring@[t]).num_inputs == ni && offspring@[t].num_outputs
                                == no by {
                                if t < opre.len() {
                                    assert(opre[t].num_inputs == ni);
                                } else {
                                    assert(offspring@[t] == child);
                                }
                            }
                        }
                    }
                } else {
                    proof {
                        assert(self.registry.count() > u64::MAX - 3);
                    }
                }
                c = c + 1;
            }
            k4 = k4 + 1;
        }

        proof {
            assert(total == total_avg(settled, settled.len() as int));
            assert(offspring@.len() == share_sum(
                settled,
                settled.len() as int,
                total as int,
                num_offspring as int,
            ) || self.registry.count() > u64::MAX - 3);
            assert(gvals.len() == gseq.len());
            assert(generation_post(
                old(self).species@,
                gvals,
                self.species@,
                offspring@,
                self.registry.count(),
            ));
        }
        offspring
    }
}

} // verus!
