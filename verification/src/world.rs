//! The simulation: actors driven by their genomes' networks in a 2D world,
//! ticked at a fixed rate and evolved every fixed number of ticks.

use vstd::prelude::*;
use crate::fixed::{UNIT, sat_add, fmul, clamp_i64};
use crate::genetics::{Genome, random_envelope};
use crate::neurology::network_eval;
use crate::evolution::{Creator, all_nums, genomes_nums, generation_post};
use crate::random::{RandomSource, rng};

verus! {

/// Updates per simulated second.
pub const TICKS: u64 = 25;

/// Seconds per tick, in millionths: the integration step.
pub const SPT: i64 = 40_000;

/// Seconds per generation.
pub const SPG: u64 = 10;

/// Ticks per generation.
pub const TPG: u64 = SPG * TICKS;

/// A 2D vector in fixed-point millionths.
#[derive(Clone, Copy, PartialEq, Eq, Structural, Debug)]
pub struct Vec2 {
    pub x: i64,
    pub y: i64,
}

impl Vec2 {
    pub fn new(x: i64, y: i64) -> (r: Vec2)
        ensures
            r == (Vec2 { x, y }),
    {
        Vec2 { x, y }
    }

    /// Componentwise saturating sum.
    pub fn plus(&self, other: &Vec2) -> (r: Vec2)
        ensures
            r.x == sat_add(self.x as int, other.x as int),
            r.y == sat_add(self.y as int, other.y as int),
    {
        Vec2 { x: crate::fixed::add_sat(self.x, other.x), y: crate::fixed::add_sat(self.y, other.y) }
    }

    /// Scaled by a fixed-point factor.
    pub fn scale(&self, factor: i64) -> (r: Vec2)
        ensures
            r.x == fmul(self.x as int, factor as int),
            r.y == fmul(self.y as int, factor as int),
    {
        Vec2 {
            x: crate::fixed::mul_fixed(self.x, factor),
            y: crate::fixed::mul_fixed(self.y, factor),
        }
    }
}

/// A point body in the 2D world, driven by its genome's network.
pub struct Actor {
    pub position: Vec2,
    pub velocity: Vec2,
    pub acceleration: Vec2,
    pub genome: Genome,
}

/// One physics tick from `o` to `n` under jerk `(jx, jy)`: the jerk (each
/// component within one unit, as network outputs are) is integrated into
/// the acceleration, that into the velocity, and that into the position,
/// each scaled by the tick step.
pub open spec fn ticked(o: Actor, n: Actor, jx: int, jy: int) -> bool {
    &&& -UNIT < jx < UNIT
    &&& -UNIT < jy < UNIT
    &&& n.acceleration.x == sat_add(o.acceleration.x as int, fmul(jx, SPT as int))
    &&& n.acceleration.y == sat_add(o.acceleration.y as int, fmul(jy, SPT as int))
    &&& n.velocity.x == sat_add(o.velocity.x as int, fmul(n.acceleration.x as int, SPT as int))
    &&& n.velocity.y == sat_add(o.velocity.y as int, fmul(n.acceleration.y as int, SPT as int))
    &&& n.position.x == sat_add(o.position.x as int, fmul(n.velocity.x as int, SPT as int))
    &&& n.position.y == sat_add(o.position.y as int, fmul(n.velocity.y as int, SPT as int))
}

/// A negated distance to the origin: `d` is the integer square root of the
/// squared distance from `p` to the origin, and `r` its negation, clamped.
pub open spec fn neg_distance(p: Vec2, r: i64, d: int) -> bool {
    &&& 0 <= d
    &&& d * d <= p.x * p.x + p.y * p.y
    &&& (d + 1) * (d + 1) > p.x * p.x + p.y * p.y
    &&& r == -clamp_i64(d)
}

/// One physics step happened from `o` to `n`, under some jerk.
pub open spec fn ticked_some(o: Actor, n: Actor) -> bool {
    exists|jx: int, jy: int| #[trigger] ticked(o, n, jx, jy)
}

/// The sensor vector an actor feeds its network: position, velocity,
/// acceleration and a bias of one unit.
pub open spec fn sensors(a: Actor) -> Seq<i64> {
    seq![
        a.position.x,
        a.position.y,
        a.velocity.x,
        a.velocity.y,
        a.acceleration.x,
        a.acceleration.y,
        UNIT,
    ]
}

/// The actor stands at the spawn point, at rest.
pub open spec fn spawn_state(a: Actor) -> bool {
    &&& a.position == (Vec2 { x: (320 * UNIT) as i64, y: (240 * UNIT) as i64 })
    &&& a.velocity == (Vec2 { x: 0i64, y: 0i64 })
    &&& a.acceleration == (Vec2 { x: 0i64, y: 0i64 })
}

/// A fresh actor around genome `g`, as a value.
pub open spec fn spawned(g: Genome) -> Actor {
    Actor {
        position: Vec2 { x: (320 * UNIT) as i64, y: (240 * UNIT) as i64 },
        velocity: Vec2 { x: 0i64, y: 0i64 },
        acceleration: Vec2 { x: 0i64, y: 0i64 },
        genome: g,
    }
}

impl Actor {
    /// The genome reads seven sensors and yields two outputs.
    pub open spec fn wf(self) -> bool {
        &&& self.genome.wf()
        &&& self.genome.num_inputs == 7
        &&& self.genome.num_outputs == 2
    }

    /// A fresh actor around the genome, at the spawn point, at rest.
    pub fn new(genome: Genome) -> (r: Actor)
        ensures
            spawn_state(r),
            r.genome == genome,
            r == spawned(genome),
    {
        Actor {
            position: Vec2::new(320 * UNIT, 240 * UNIT),
            velocity: Vec2::new(0, 0),
            acceleration: Vec2::new(0, 0),
            genome,
        }
    }

    /// Apply a force: add it to the acceleration.
    pub fn push(&mut self, force: Vec2)
        ensures
            final(self).acceleration.x == sat_add(
                old(self).acceleration.x as int,
                force.x as int,
            ),
            final(self).acceleration.y == sat_add(
                old(self).acceleration.y as int,
                force.y as int,
            ),
            final(self).position == old(self).position,
            final(self).velocity == old(self).velocity,
            final(self).genome == old(self).genome,
    {
        self.acceleration = self.acceleration.plus(&force);
    }

    /// One tick: feed the sensor vector into the network, read the first
    /// two outputs as the jerk, and integrate it at the tick step.
    pub fn update(&mut self)
        requires
            old(self).wf(),
        ensures
            final(self).wf(),
            final(self).genome == old(self).genome,
            ticked(
                *old(self),
                *final(self),
                network_eval(old(self).genome.network, sensors(*old(self)))[0] as int,
                network_eval(old(self).genome.network, sensors(*old(self)))[1] as int,
            ),
    {
        let mut inputs: Vec<i64> = Vec::new();
        inputs.push(self.position.x);
        inputs.push(self.position.y);
        inputs.push(self.velocity.x);
        inputs.push(self.velocity.y);
        inputs.push(self.acceleration.x);
        inputs.push(self.acceleration.y);
        inputs.push(UNIT);

        proof {
            assert(inputs@ =~= sensors(*old(self)));
        }
        let outputs = self.genome.network.evaluate(inputs);
        let jerk = Vec2::new(outputs[0], outputs[1]);

        self.acceleration = self.acceleration.plus(&jerk.scale(SPT));
        self.velocity = self.velocity.plus(&self.acceleration.scale(SPT));
        self.position = self.position.plus(&self.velocity.scale(SPT));
        proof {
            assert(jerk.x == network_eval(old(self).genome.network, sensors(*old(self)))[0]);
            assert(jerk.y == network_eval(old(self).genome.network, sensors(*old(self)))[1]);
            assert(ticked(*old(self), *self, jerk.x as int, jerk.y as int));
        }
    }
}

/// The fitness the simulation assigns: the negated distance to the origin —
/// closer is better. (Fixed-point values are total-ordered integers, so no
/// undefined fitness can arise.)
pub fn fitness(actor: &Actor) -> (r: i64)
    ensures
        r <= 0,
        exists|d: int| #[trigger] neg_distance(actor.position, r, d),
{
    let px: i128 = actor.position.x as i128;
    let py: i128 = actor.position.y as i128;
    proof {
        assert(px * px >= 0 && px * px <= 0x4000_0000_0000_0000_0000_0000_0000_0000 && py * py >= 0
            && py * py <= 0x4000_0000_0000_0000_0000_0000_0000_0000) by (nonlinear_arith)
            requires
                -0x8000_0000_0000_0000 <= px <= 0x8000_0000_0000_0000,
                -0x8000_0000_0000_0000 <= py <= 0x8000_0000_0000_0000,
        ;
    }
    let sq: u128 = ((px * px) as u128) + ((py * py) as u128);
    let d = crate::fixed::isqrt_u128(sq);
    let c: i64 = if d > i64::MAX as u128 {
        i64::MAX
    } else {
        d as i64
    };
    proof {
        assert(neg_distance(actor.position, (-c) as i64, d as int));
    }
    -c
}

/// `g` is `o`'s genome scored in place: the same genome but for its fitness
/// field, which holds a negated distance of `o` to the origin.
pub open spec fn scored_genome(o: Actor, g: Genome) -> bool {
    &&& g == (Genome { fitness: g.fitness, ..o.genome })
    &&& g.fitness <= 0
    &&& exists|d: int| #[trigger] neg_distance(o.position, g.fitness, d)
}

/// Every actor's genome scored, in order.
pub open spec fn scored_list(olds: Seq<Actor>, gs: Seq<Genome>) -> bool {
    &&& gs.len() == olds.len()
    &&& forall|i: int| 0 <= i < gs.len() ==> scored_genome(olds[i], #[trigger] gs[i])
}

/// A generation boundary from world `o` to world `n`: each of `o`'s actors'
/// genomes is scored with its distance fitness; the evolver turns those
/// genomes into the next species and offspring; and the population is
/// replaced wholesale — one fresh actor per offspring, each then advanced
/// one physics step.
pub open spec fn generation_turned(o: World, n: World) -> bool {
    exists|gs: Seq<Genome>, off: Seq<Genome>|
        #![trigger scored_list(o.actors@, gs), generation_post(
            o.creator.species@,
            gs,
            n.creator.species@,
            off,
            n.creator.registry.count(),
        )]
        {
            &&& scored_list(o.actors@, gs)
            &&& generation_post(
                o.creator.species@,
                gs,
                n.creator.species@,
                off,
                n.creator.registry.count(),
            )
            &&& n.actors@.len() == off.len()
            &&& forall|i: int|
                0 <= i < n.actors@.len() ==> (#[trigger] n.actors@[i]).genome == off[i]
                    && ticked_some(spawned(off[i]), n.actors@[i])
        }
}

/// The population of actors, the evolver, and the countdown to the next
/// generation boundary.
pub struct World {
    pub actors: Vec<Actor>,
    pub creator: Creator,
    pub generation_tick: u64,
    pub rng: RandomSource,
}

impl World {
    /// The countdown is live, every actor is coherent at the sensor arity,
    /// and the evolver's species hold only genomes of that arity.
    pub open spec fn wf(self) -> bool {
        &&& 1 <= self.generation_tick
        &&& forall|i: int| 0 <= i < self.actors@.len() ==> (#[trigger] self.actors@[i]).wf()
        &&& self.creator.wf()
        &&& all_nums(self.creator.species@, 7, 2)
    }

    /// A world of one hundred actors with random genomes, the countdown at
    /// a full generation.
    pub fn new() -> (r: World)
        ensures
            r.wf(),
            r.actors@.len() == 100,
            r.generation_tick == TPG,
            r.creator.species@.len() == 0,
            forall|i: int|
                0 <= i < r.actors@.len() ==> spawn_state(#[trigger] r.actors@[i])
                    && random_envelope(r.actors@[i].genome),
    {
        let mut source = rng();
        let mut creator = Creator::new();
        let mut actors: Vec<Actor> = Vec::new();
        let mut i: usize = 0;
        while i < 100
            invariant
                i <= 100,
                actors@.len() == i,
                creator.species@.len() == 0,
                creator.wf(),
                creator.registry.count() <= 4 * i,
                forall|t: int| 0 <= t < actors@.len() ==> (#[trigger] actors@[t]).wf(),
                forall|t: int|
                    0 <= t < actors@.len() ==> spawn_state(#[trigger] actors@[t])
                        && random_envelope(actors@[t].genome),
            decreases 100 - i,
        {
            let genome = Genome::random(7, 2, &mut source, &mut creator.registry);
            actors.push(Actor::new(genome));
            i = i + 1;
        }
        World { actors, creator, generation_tick: TPG, rng: source }
    }

    /// One tick. The countdown falls by one; at zero it resets to a full
    /// generation, each actor's genome is scored with its distance-based
    /// fitness, the evolver breeds the next population from those genomes,
    /// and the actors are replaced wholesale by fresh ones around the
    /// offspring. Then every actor advances one physics step.
    pub fn update(&mut self)
        requires
            old(self).wf(),
        ensures
            final(self).wf(),
            old(self).generation_tick > 1 ==> final(self).generation_tick == old(
                self,
            ).generation_tick - 1 && final(self).actors@.len() == old(self).actors@.len()
                && final(self).creator == old(self).creator && (forall|i: int|
                0 <= i < final(self).actors@.len() ==> (#[trigger] final(self).actors@[i]).genome
                    == old(self).actors@[i].genome && ticked_some(
                    old(self).actors@[i],
                    final(self).actors@[i],
                )),
            old(self).generation_tick == 1 ==> final(self).generation_tick == TPG
                && generation_turned(*old(self), *final(self)),
    {
        let ghost mut scored_seq: Seq<Genome> = Seq::empty();
        let ghost mut off_seq: Seq<Genome> = Seq::empty();
        self.generation_tick = self.generation_tick - 1;

        if self.generation_tick == 0 {
            self.generation_tick = TPG;

            // score each genome by how close its actor ended to the origin
            let mut m: usize = 0;
            while m < self.actors.len()
                invariant
                    m <= self.actors@.len(),
                    self.actors@.len() == old(self).actors@.len(),
                    self.generation_tick == TPG,
                    self.creator == old(self).creator,
                    self.rng == old(self).rng,
                    forall|t: int|
                        0 <= t < self.actors@.len() ==> (#[trigger] self.actors@[t]).wf(),
                    forall|t: int|
                        0 <= t < m ==> scored_genome(
                            old(self).actors@[t],
                            (#[trigger] self.actors@[t]).genome,
                        ),
                    forall|t: int|
                        m <= t < self.actors@.len() ==> #[trigger] self.actors@[t] == old(
                            self,
                        ).actors@[t],
                decreases self.actors@.len() - m,
            {
                let f = fitness(&self.actors[m]);
                self.actors[m].genome.fitness = f;
                m = m + 1;
            }
            proof {
                scored_seq = Seq::new(self.actors@.len(), |t: int| self.actors@[t].genome);
                assert(scored_list(old(self).actors@, scored_seq));
            }

            // hand the scored genomes to the evolver
            let mut genome_refs: Vec<&Genome> = Vec::new();
            let mut m2: usize = 0;
            while m2 < self.actors.len()
                invariant
                    m2 <= self.actors@.len(),
                    genome_refs@.len() == m2,
                    forall|t: int|
                        0 <= t < self.actors@.len() ==> (#[trigger] self.actors@[t]).wf(),
                    forall|t: int|
                        0 <= t < genome_refs@.len() ==> *(#[trigger] genome_refs@[t])
                            == self.actors@[t].genome,
                decreases self.actors@.len() - m2,
            {
                genome_refs.push(&self.actors[m2].genome);
                m2 = m2 + 1;
            }
            proof {
                assert forall|t: int| 0 <= t < genome_refs@.len() implies (
                #[trigger] genome_refs@[t]).wf() && genome_refs@[t].num_inputs == 7
                    && genome_refs@[t].num_outputs == 2 by {
                    assert(self.actors@[t].wf());
                }
                assert(genome_refs@.map_values(|g: &Genome| *g) =~= scored_seq);
            }
            let ghost species_pre = self.creator.species@;
            let mut next_gen = self.creator.next_generation(genome_refs, &mut self.rng);
            proof {
                off_seq = next_gen@;
                assert(species_pre == old(self).creator.species@);
                assert(generation_post(
                    old(self).creator.species@,
                    scored_seq,
                    self.creator.species@,
                    off_seq,
                    self.creator.registry.count(),
                ));
            }

            // kill your parents: fresh actors around the offspring
            let mut fresh: Vec<Actor> = Vec::new();
            while next_gen.len() > 0
                invariant
                    next_gen@.len() <= off_seq.len(),
                    next_gen@ == off_seq.subrange(
                        off_seq.len() - next_gen@.len(),
                        off_seq.len() as int,
                    ),
                    fresh@.len() + next_gen@.len() == off_seq.len(),
                    forall|t: int| 0 <= t < next_gen@.len() ==> (#[trigger] next_gen@[t]).wf(),
                    genomes_nums(next_gen@, 7, 2),
                    forall|t: int| 0 <= t < fresh@.len() ==> (#[trigger] fresh@[t]).wf(),
                    forall|t: int|
                        0 <= t < fresh@.len() ==> #[trigger] fresh@[t] == spawned(off_seq[t]),
                decreases next_gen@.len(),
            {
                let ghost pre_next = next_gen@;
                let ghost consumed = off_seq.len() - pre_next.len();
                let g = next_gen.remove(0);
                fresh.push(Actor::new(g));
                proof {
                    assert(g == off_seq[consumed]);
                    assert(next_gen@ =~= off_seq.subrange(consumed + 1, off_seq.len() as int));
                }
            }
            self.actors = fresh;
            proof {
                assert(self.actors@.len() == off_seq.len());
            }
        }

        // advance the physics one step for every actor
        proof {
            assert(TPG >= 1);
        }
        let ghost tick_now = self.generation_tick;
        let ghost pre_phys = self.actors@;
        let ghost pre_creator = self.creator;
        let ghost pre_rng = self.rng;
        let mut a: usize = 0;
        while a < self.actors.len()
            invariant
                a <= self.actors@.len(),
                self.generation_tick == tick_now,
                self.actors@.len() == pre_phys.len(),
                self.creator == pre_creator,
                self.rng == pre_rng,
                self.generation_tick >= 1,
                self.creator.wf(),
                all_nums(self.creator.species@, 7, 2),
                forall|t: int| 0 <= t < self.actors@.len() ==> (#[trigger] self.actors@[t]).wf(),
                forall|t: int|
                    0 <= t < a ==> (#[trigger] self.actors@[t]).genome == pre_phys[t].genome
                        && ticked_some(pre_phys[t], self.actors@[t]),
                forall|t: int| a <= t < self.actors@.len() ==> #[trigger] self.actors@[t] == pre_phys[t],
            decreases self.actors@.len() - a,
        {
            let ghost before = self.actors@[a as int];
            self.actors[a].update();
            proof {
                assert(ticked_some(before, self.actors@[a as int]));
            }
            a = a + 1;
        }
        proof {
            if old(self).generation_tick == 1 {
                assert(generation_turned(*old(self), *self)) by {
                    assert(scored_list(old(self).actors@, scored_seq));
                    assert(generation_post(
                        old(self).creator.species@,
                        scored_seq,
                        self.creator.species@,
                        off_seq,
                        self.creator.registry.count(),
                    ));
                    assert(self.actors@.len() == off_seq.len());
                    assert forall|i: int| 0 <= i < self.actors@.len() implies (
                    #[trigger] self.actors@[i]).genome == off_seq[i] && ticked_some(
                        spawned(off_seq[i]),
                        self.actors@[i],
                    ) by {
                        assert(pre_phys[i] == spawned(off_seq[i]));
                    }
                }
            }
        }
    }
}

} // verus!
