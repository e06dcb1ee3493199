use vstd::prelude::*;

use crate::ant::Ant;
use crate::ant::AntMode;
use crate::ant::AntRole;
use crate::ant::ant_live;
use crate::ant::ants_at;
use crate::ant::food_at;
use crate::ant::lemma_food_at_same_positions;
use crate::ant::check_ant_found_food;
use crate::ant::pheromones_in_interior;
use crate::ant::returning_ant;
use crate::ant::update_ants;
use crate::ant::wandering_ant;
use crate::food::Food;
use crate::food::create_food;
use crate::food::age_foods;
use crate::food::food_live;
use crate::food::harvested_size;
use crate::food::lemma_harvested_size_snoc;
use crate::food::live_foods;
use crate::food::update_foods;
use crate::geometry::Position;
use crate::geometry::axis_adjacent;
use crate::geometry::axis_gap;
use crate::geometry::in_interior;
use crate::pheromone::Pheromone;
use crate::pheromone::PheromoneKind;
use crate::pheromone::age_pheromones;
use crate::pheromone::aged;
use crate::pheromone::duration_of;
use crate::pheromone::live_pheromones;
use crate::pheromone::pheromone_live;
use crate::pheromone::update_pheromones;
use crate::rng::RandomSource;

verus! {

/// The nest: a fixed position and the stockpile counter that gates the
/// ant population.
#[derive(Clone, Copy, Debug, PartialEq, Eq, Structural)]
pub struct Colony {
    pub position: Position,
    pub stockpile: u32,
}

/// Why a world or an entity was rejected.
#[derive(Clone, Copy, Debug, PartialEq, Eq, Structural)]
pub enum SimError {
    /// The grid leaves no interior cell: a dimension is below three.
    DimensionsTooSmall,
    /// A position sits on or beyond the walls.
    OutsideInterior,
    /// An entity's age has already reached its lifespan.
    Expired,
    /// A resource with nothing left in it.
    Depleted,
    /// A colony that would never sustain a single ant.
    ZeroStockpile,
    /// A spawn probability outside zero to one.
    BadSpawnRate,
}

/// A read-only view of everything a renderer needs to draw one frame.
#[derive(Debug)]
pub struct Snapshot {
    pub width: u16,
    pub height: u16,
    pub colony: Position,
    pub pheromones: Vec<(Position, PheromoneKind)>,
    pub ants: Vec<Position>,
    pub foods: Vec<Position>,
}

/// The whole simulation state: one instance per run owns every entity.
#[derive(Debug)]
pub struct World {
    pub width: u16,
    pub height: u16,
    pub ended: bool,
    pub colony: Colony,
    pub ants: Vec<Ant>,
    pub pheromones: Vec<Pheromone>,
    pub foods: Vec<Food>,
    /// Food spawns each tick with probability `spawn_num / spawn_den`.
    pub spawn_num: u32,
    pub spawn_den: u32,
}

/// The one worker a tick may spawn: fresh, at the colony.
pub open spec fn fresh_worker(p: Position) -> Ant {
    Ant {
        position: p,
        role: AntRole::Worker,
        moves: 1,
        lifespan: 20,
        starvation: 10,
        carrying_food: false,
        mode: AntMode::Wandering,
        alive: true,
        age: 0,
        explored: None,
    }
}

/// The roster a tick moves: the ants as they were, plus one fresh worker
/// when the population is below the stockpile.
pub open spec fn spawn_roster(w: World) -> Seq<Ant> {
    if w.ants@.len() < w.colony.stockpile as int {
        w.ants@.push(fresh_worker(w.colony.position))
    } else {
        w.ants@
    }
}

/// What one tick does to one ant of the roster: bookkeeping fields kept;
/// the harvest law — the ant turns and carries exactly when it already
/// was returning or a resource lies on the cell it ended on; the explored
/// memory changes only by recording a strong marker the ant jumped onto;
/// and the move is one clamped step or onto an axis-adjacent cell (a
/// marker, or the colony).
pub open spec fn ant_stepped(pre: Ant, post: Ant, foods: Seq<Food>) -> bool {
    &&& post.role == pre.role
    &&& post.moves == pre.moves
    &&& post.lifespan == pre.lifespan
    &&& post.starvation == pre.starvation
    &&& post.age == pre.age
    &&& post.alive == pre.alive
    &&& (post.mode is Returning <==> (pre.mode is Returning || food_at(foods, post.position)))
    &&& (post.carrying_food <==> (pre.carrying_food || food_at(foods, post.position)))
    &&& (post.explored == pre.explored || {
        &&& pre.mode is Wandering
        &&& pre.explored is None
        &&& post.explored is Some
        &&& post.position == post.explored->0.position
        &&& post.explored->0.kind is Strong
    })
    &&& ((axis_gap(post.position.x, pre.position.x) <= 1 && axis_gap(
        post.position.y,
        pre.position.y,
    ) <= 1) || axis_adjacent(pre.position, post.position))
}

/// How many ants of a roster are bound to lay a strong marker on their
/// tick: the returning ones that do not stand adjacent to the colony
/// (those snap home and lay nothing); whether such an ant deposits does
/// not depend on any random draw.
pub open spec fn strong_layers(ants: Seq<Ant>, colony: Position) -> nat
    decreases ants.len(),
{
    if ants.len() == 0 {
        0
    } else {
        strong_layers(ants.drop_last(), colony) + (if ants.last().mode is Returning
            && !axis_adjacent(ants.last().position, colony) {
            1nat
        } else {
            0nat
        })
    }
}

/// One more ant on the roster raises the bound-to-lay count by one
/// exactly when it is returning and off the colony.
pub proof fn lemma_strong_layers_push(ants: Seq<Ant>, a: Ant, colony: Position)
    ensures
        strong_layers(ants.push(a), colony) == strong_layers(ants, colony) + (if a.mode
            is Returning && !axis_adjacent(a.position, colony) {
            1nat
        } else {
            0nat
        }),
{
    assert(ants.push(a).drop_last() =~= ants);
    assert(ants.push(a).last() == a);
}

/// A marker laid this tick: fresh, with the duration of its kind, on the
/// cell some ant of the roster ended on; a strong one comes only from a
/// returning ant.
pub open spec fn tick_marker(m: Pheromone, ants: Seq<Ant>) -> bool {
    &&& m.age == 0
    &&& m.duration == duration_of(m.kind)
    &&& exists|t: int|
        0 <= t < ants.len() && (#[trigger] ants[t]).position == m.position && (m.kind is Strong
            ==> ants[t].mode is Returning)
}

/// A resource the tick spawned: fresh, clear of all four walls, within
/// the randomized ranges.
pub open spec fn tick_food(f: Food, width: u16, height: u16) -> bool {
    &&& f.age == 0
    &&& 1 <= f.position.x < width - 1
    &&& 1 <= f.position.y < height - 1
    &&& 30 <= f.lifespan < 200
    &&& 50 <= f.size < 100
}

/// The old resources after the tick's harvests: positions, lifespans and
/// ages kept; each size shrunk by two per ant that ended on its cell,
/// never below zero.
pub open spec fn harvested_foods(foods: Seq<Food>, ants: Seq<Ant>) -> Seq<Food> {
    Seq::new(
        foods.len(),
        |j: int|
            Food {
                position: foods[j].position,
                lifespan: foods[j].lifespan,
                size: harvested_size(foods[j].size, ants_at(ants, foods[j].position)),
                age: foods[j].age,
            },
    )
}

impl World {
    /// Well-formedness: a real interior exists, the configuration is
    /// sane, and every entity sits strictly inside the walls.
    pub open spec fn wf(self) -> bool {
        &&& 3 <= self.width
        &&& 3 <= self.height
        &&& in_interior(self.colony.position, self.width, self.height)
        &&& 1 <= self.colony.stockpile
        &&& 1 <= self.spawn_den
        &&& self.spawn_num <= self.spawn_den
        &&& forall|i: int|
            0 <= i < self.ants@.len() ==> in_interior(
                (#[trigger] self.ants@[i]).position,
                self.width,
                self.height,
            )
        &&& pheromones_in_interior(self.pheromones@, self.width, self.height)
        &&& forall|i: int|
            0 <= i < self.foods@.len() ==> in_interior(
                (#[trigger] self.foods@[i]).position,
                self.width,
                self.height,
            )
    }

    /// Every ant's age is below its lifespan. Ants never age during a
    /// run, so this holds from construction on, through steps and aging
    /// passes alike.
    pub open spec fn ants_live(self) -> bool {
        forall|i: int| 0 <= i < self.ants@.len() ==> ant_live(#[trigger] self.ants@[i])
    }

    /// Every live entity is within its bounds: ants younger than their
    /// lifespan, markers younger than their duration, resources neither
    /// expired nor empty. Holds right after a step's pruning.
    pub open spec fn pruned(self) -> bool {
        &&& self.ants_live()
        &&& forall|i: int|
            0 <= i < self.pheromones@.len() ==> pheromone_live(#[trigger] self.pheromones@[i])
        &&& forall|i: int| 0 <= i < self.foods@.len() ==> food_live(#[trigger] self.foods@[i])
    }

    /// A world as a fresh run starts it: the colony at a random interior
    /// cell with a stockpile of ten, one worker ant on the colony, no
    /// markers, no resources, food spawning at one in ten.
    pub fn new(width: u16, height: u16, rng: &mut RandomSource) -> (r: Result<World, SimError>)
        ensures
            r is Ok <==> (3 <= width && 3 <= height),
            r matches Err(e) ==> e is DimensionsTooSmall,
            r matches Ok(w) ==> {
                &&& w.wf()
                &&& w.pruned()
                &&& w.width == width
                &&& w.height == height
                &&& !w.ended
                &&& w.colony.stockpile == 10
                &&& w.ants@.len() == 1
                &&& w.ants@[0].position == w.colony.position
                &&& w.ants@[0].role is Worker
                &&& w.ants@[0].moves == 1
                &&& w.ants@[0].lifespan == 100
                &&& w.ants@[0].starvation == 20
                &&& !w.ants@[0].carrying_food
                &&& w.ants@[0].mode is Wandering
                &&& w.ants@[0].alive
                &&& w.ants@[0].age == 0
                &&& w.ants@[0].explored is None
                &&& w.pheromones@.len() == 0
                &&& w.foods@.len() == 0
                &&& w.spawn_num == 1
                &&& w.spawn_den == 10
            },
    {
        if width < 3 || height < 3 {
            return Err(SimError::DimensionsTooSmall);
        }
        let cx: u32 = rng.pick(1, width as u32);
        let cy: u32 = rng.pick(1, height as u32);
        let colony_position = Position { x: cx as u16, y: cy as u16 };
        let colony = Colony { position: colony_position, stockpile: 10 };
        let mut ants: Vec<Ant> = Vec::new();
        ants.push(
            Ant::new(colony_position, AntRole::Worker, 1, 100, 20, false, AntMode::Wandering),
        );
        let pheromones: Vec<Pheromone> = Vec::new();
        let foods: Vec<Food> = Vec::new();
        Ok(
            World {
                width,
                height,
                ended: false,
                colony,
                ants,
                pheromones,
                foods,
                spawn_num: 1,
                spawn_den: 10,
            },
        )
    }

    /// A world built from explicit configuration, with no ants yet:
    /// callers inject the population they want and step from there.
    pub fn with_config(
        width: u16,
        height: u16,
        colony: Position,
        stockpile: u32,
        spawn_num: u32,
        spawn_den: u32,
    ) -> (r: Result<World, SimError>)
        ensures
            r is Ok <==> (3 <= width && 3 <= height && in_interior(colony, width, height) && 1
                <= stockpile && 1 <= spawn_den && spawn_num <= spawn_den),
            (width < 3 || height < 3) ==> (r matches Err(e) && e is DimensionsTooSmall),
            (3 <= width && 3 <= height && !in_interior(colony, width, height)) ==> (r matches Err(e)
                && e is OutsideInterior),
            (3 <= width && 3 <= height && in_interior(colony, width, height) && stockpile < 1) ==> (
            r matches Err(e) && e is ZeroStockpile),
            (3 <= width && 3 <= height && in_interior(colony, width, height) && 1 <= stockpile && (
            spawn_den < 1 || spawn_num > spawn_den)) ==> (r matches Err(e) && e is BadSpawnRate),
            r matches Ok(w) ==> {
                &&& w.wf()
                &&& w.pruned()
                &&& w.width == width
                &&& w.height == height
                &&& !w.ended
                &&& w.colony.position == colony
                &&& w.colony.stockpile == stockpile
                &&& w.ants@.len() == 0
                &&& w.pheromones@.len() == 0
                &&& w.foods@.len() == 0
                &&& w.spawn_num == spawn_num
                &&& w.spawn_den == spawn_den
            },
    {
        if width < 3 || height < 3 {
            return Err(SimError::DimensionsTooSmall);
        }
        if !(1 <= colony.x && colony.x < width && 1 <= colony.y && colony.y < height) {
            return Err(SimError::OutsideInterior);
        }
        if stockpile < 1 {
            return Err(SimError::ZeroStockpile);
        }
        if spawn_den < 1 || spawn_num > spawn_den {
            return Err(SimError::BadSpawnRate);
        }
        Ok(
            World {
                width,
                height,
                ended: false,
                colony: Colony { position: colony, stockpile },
                ants: Vec::new(),
                pheromones: Vec::new(),
                foods: Vec::new(),
                spawn_num,
                spawn_den,
            },
        )
    }

    /// Inject an ant, rejecting one that would break the world's
    /// invariant.
    pub fn add_ant(&mut self, ant: Ant) -> (r: Result<(), SimError>)
        requires
            old(self).wf(),
        ensures
            final(self).wf(),
            r is Ok <==> (in_interior(ant.position, old(self).width, old(self).height) && ant.age
                < ant.lifespan),
            !in_interior(ant.position, old(self).width, old(self).height) ==> (r matches Err(e)
                && e is OutsideInterior),
            (in_interior(ant.position, old(self).width, old(self).height) && ant.age
                >= ant.lifespan) ==> (r matches Err(e) && e is Expired),
            r is Ok ==> {
                &&& final(self).ants@ == old(self).ants@.push(ant)
                &&& final(self).pheromones == old(self).pheromones
                &&& final(self).foods == old(self).foods
                &&& final(self).width == old(self).width
                &&& final(self).height == old(self).height
                &&& final(self).colony == old(self).colony
                &&& final(self).ended == old(self).ended
                &&& final(self).spawn_num == old(self).spawn_num
                &&& final(self).spawn_den == old(self).spawn_den
            },
            r is Err ==> *final(self) == *old(self),
    {
        if !(1 <= ant.position.x && ant.position.x < self.width && 1 <= ant.position.y
            && ant.position.y < self.height) {
            return Err(SimError::OutsideInterior);
        }
        if ant.age >= ant.lifespan {
            return Err(SimError::Expired);
        }
        self.ants.push(ant);
        Ok(())
    }

    /// Inject a resource, rejecting one that would break the world's
    /// invariant.
    pub fn add_food(&mut self, food: Food) -> (r: Result<(), SimError>)
        requires
            old(self).wf(),
        ensures
            final(self).wf(),
            r is Ok <==> (in_interior(food.position, old(self).width, old(self).height) && food.age
                < food.lifespan && food.size > 0),
            !in_interior(food.position, old(self).width, old(self).height) ==> (r matches Err(e)
                && e is OutsideInterior),
            (in_interior(food.position, old(self).width, old(self).height) && food.age
                >= food.lifespan) ==> (r matches Err(e) && e is Expired),
            (in_interior(food.position, old(self).width, old(self).height) && food.age
                < food.lifespan && food.size == 0) ==> (r matches Err(e) && e is Depleted),
            r is Ok ==> {
                &&& final(self).foods@ == old(self).foods@.push(food)
                &&& final(self).pheromones == old(self).pheromones
                &&& final(self).ants == old(self).ants
                &&& final(self).width == old(self).width
                &&& final(self).height == old(self).height
                &&& final(self).colony == old(self).colony
                &&& final(self).ended == old(self).ended
                &&& final(self).spawn_num == old(self).spawn_num
                &&& final(self).spawn_den == old(self).spawn_den
            },
            r is Err ==> *final(self) == *old(self),
    {
        if !(1 <= food.position.x && food.position.x < self.width && 1 <= food.position.y
            && food.position.y < self.height) {
            return Err(SimError::OutsideInterior);
        }
        if food.age >= food.lifespan {
            return Err(SimError::Expired);
        }
        if food.size == 0 {
            return Err(SimError::Depleted);
        }
        self.foods.push(food);
        Ok(())
    }

    /// One tick. A finished run is a no-op. Otherwise: spawn at most one
    /// worker when the population is below the stockpile, move every ant
    /// by its mode's rules and let it harvest, prune expired ants and
    /// markers, maybe spawn one resource, prune dead resources. Right
    /// after the pruning every surviving entity is within its bounds; the
    /// roster only grows by the one spawn, each ant obeys the per-ant
    /// transition law, the old resources are harvested in place with at
    /// most one fresh one appended, and the old trail is kept in order
    /// with at most one fresh marker per ant appended — at least one for
    /// every returning ant away from the colony — all before the final
    /// pruning.
    #[verifier::loop_isolation(false)]
    pub fn step(&mut self, rng: &mut RandomSource)
        requires
            old(self).wf(),
        ensures
            final(self).wf(),
            old(self).ended ==> *final(self) == *old(self),
            !old(self).ended ==> {
                &&& final(self).pruned()
                &&& final(self).width == old(self).width
                &&& final(self).height == old(self).height
                &&& final(self).colony == old(self).colony
                &&& final(self).ended == old(self).ended
                &&& final(self).spawn_num == old(self).spawn_num
                &&& final(self).spawn_den == old(self).spawn_den
            },
            (!old(self).ended && old(self).ants_live()) ==> {
                let roster = spawn_roster(*old(self));
                let moved = final(self).ants@;
                &&& moved.len() == roster.len()
                &&& moved.len() == (if old(self).ants@.len() < old(self).colony.stockpile as int {
                    old(self).ants@.len() as int + 1
                } else {
                    old(self).ants@.len() as int
                })
                &&& moved.len() >= (if old(self).colony.stockpile as int <= old(self).ants@.len()
                    + 1 {
                    old(self).colony.stockpile as int
                } else {
                    old(self).ants@.len() as int + 1
                })
                &&& (forall|i: int|
                    0 <= i < roster.len() ==> ant_stepped(
                        roster[i],
                        #[trigger] moved[i],
                        old(self).foods@,
                    ))
                &&& (exists|extra: Seq<Food>|
                    {
                        &&& extra.len() <= 1
                        &&& (forall|k: int|
                            0 <= k < extra.len() ==> tick_food(
                                #[trigger] extra[k],
                                old(self).width,
                                old(self).height,
                            ))
                        &&& final(self).foods@ == live_foods(
                            harvested_foods(old(self).foods@, moved) + extra,
                        )
                    })
                &&& (exists|trail: Seq<Pheromone>|
                    {
                        &&& old(self).pheromones@.len() <= trail.len() <= old(
                            self,
                        ).pheromones@.len() + roster.len()
                        &&& trail.len() >= old(self).pheromones@.len() + strong_layers(
                            roster,
                            old(self).colony.position,
                        )
                        &&& trail.take(old(self).pheromones@.len() as int) == old(self).pheromones@
                        &&& (forall|k: int|
                            old(self).pheromones@.len() <= k < trail.len() ==> tick_marker(
                                #[trigger] trail[k],
                                moved,
                            ))
                        &&& final(self).pheromones@ == live_pheromones(trail)
                    })
            },
    {
        if self.ended {
            return ;
        }
        let ghost roster = spawn_roster(*old(self));
        let ghost old_foods = self.foods@;
        let ghost old_trail = self.pheromones@;
        if self.ants.len() < self.colony.stockpile as usize {
            let spawned = Ant::new(
                self.colony.position,
                AntRole::Worker,
                1,
                20,
                10,
                false,
                AntMode::Wandering,
            );
            self.ants.push(spawned);
        }
        proof {
            assert(self.ants@ =~= roster);
        }
        let width = self.width;
        let height = self.height;
        let colony_pos = self.colony.position;
        let mut i: usize = 0;
        while i < self.ants.len()
            invariant
                i <= self.ants@.len(),
                self.ants@.len() == roster.len(),
                self.width == old(self).width,
                self.height == old(self).height,
                self.colony == old(self).colony,
                self.ended == old(self).ended,
                self.spawn_num == old(self).spawn_num,
                self.spawn_den == old(self).spawn_den,
                forall|k: int| i <= k < roster.len() ==> self.ants@[k] == roster[k],
                forall|k: int|
                    0 <= k < i ==> ant_stepped(roster[k], #[trigger] self.ants@[k], old_foods)
                        && in_interior(self.ants@[k].position, width, height),
                self.foods@.len() == old_foods.len(),
                forall|j: int|
                    #![auto]
                    0 <= j < old_foods.len() ==> {
                        &&& self.foods@[j].position == old_foods[j].position
                        &&& self.foods@[j].lifespan == old_foods[j].lifespan
                        &&& self.foods@[j].age == old_foods[j].age
                        &&& self.foods@[j].size == harvested_size(
                            old_foods[j].size,
                            ants_at(self.ants@.take(i as int), old_foods[j].position),
                        )
                    },
                old_trail.len() <= self.pheromones@.len() <= old_trail.len() + i,
                self.pheromones@.len() >= old_trail.len() + strong_layers(
                    roster.take(i as int),
                    colony_pos,
                ),
                self.pheromones@.take(old_trail.len() as int) == old_trail,
                forall|k: int|
                    old_trail.len() <= k < self.pheromones@.len() ==> tick_marker(
                        #[trigger] self.pheromones@[k],
                        self.ants@.take(i as int),
                    ),
                pheromones_in_interior(self.pheromones@, width, height),
            decreases self.ants@.len() - i,
        {
            let ghost pre_phs = self.pheromones@;
            let ghost pre_foods = self.foods@;
            let ghost pre_ants = self.ants@;
            let mut a: Ant = self.ants[i];
            let ghost a0 = a;
            proof {
                assert(a == roster[i as int]);
                if i < old(self).ants@.len() {
                    assert(roster[i as int] == old(self).ants@[i as int]);
                } else {
                    assert(roster[i as int] == fresh_worker(old(self).colony.position));
                }
            }
            match a.mode {
                AntMode::Wandering => wandering_ant(
                    height,
                    width,
                    &mut a,
                    &mut self.pheromones,
                    rng,
                ),
                AntMode::Returning => returning_ant(
                    height,
                    width,
                    &mut a,
                    &mut self.pheromones,
                    colony_pos,
                    rng,
                ),
            }
            let ghost a_moved = a;
            check_ant_found_food(&mut a, &mut self.foods);
            self.ants.set(i, a);
            proof {
                lemma_food_at_same_positions(pre_foods, old_foods, a_moved.position);
                assert(ant_stepped(a0, a, old_foods));
                lemma_strong_layers_push(roster.take(i as int), a0, colony_pos);
                assert(roster.take(i as int + 1) =~= roster.take(i as int).push(a0));
                // earlier ants, and the prefix of the roster, are untouched
                assert(self.ants@.take(i as int) =~= pre_ants.take(i as int));
                assert(self.ants@.take(i as int + 1).drop_last() =~= self.ants@.take(i as int));
                assert(self.ants@.take(i as int + 1).last() == a);
                // the old trail is still the trail's prefix
                assert(self.pheromones@.take(old_trail.len() as int) =~= self.pheromones@.take(
                    pre_phs.len() as int,
                ).take(old_trail.len() as int));
                // every fresh marker so far belongs to a moved ant
                assert forall|k: int|
                    old_trail.len() <= k < self.pheromones@.len() implies tick_marker(
                    #[trigger] self.pheromones@[k],
                    self.ants@.take(i as int + 1),
                ) by {
                    if k < pre_phs.len() {
                        assert(self.pheromones@[k] == pre_phs[k]);
                        assert(tick_marker(pre_phs[k], pre_ants.take(i as int)));
                        let t = choose|t: int|
                            0 <= t < pre_ants.take(i as int).len() && (#[trigger] pre_ants.take(
                                i as int,
                            )[t]).position == pre_phs[k].position && (pre_phs[k].kind is Strong
                                ==> pre_ants.take(i as int)[t].mode is Returning);
                        assert(self.ants@.take(i as int + 1)[t] == pre_ants.take(i as int)[t]);
                    } else {
                        // the marker this ant just laid, on its final cell
                        assert(self.pheromones@[k] == self.pheromones@.last());
                        assert(self.ants@.take(i as int + 1)[i as int] == a);
                        assert(a.position == a_moved.position);
                    }
                };
                // harvests: this ant shrank exactly the resources under it
                assert forall|j: int|
                    #![auto]
                    0 <= j < old_foods.len() implies self.foods@[j].size == harvested_size(
                    old_foods[j].size,
                    ants_at(self.ants@.take(i as int + 1), old_foods[j].position),
                ) by {
                    crate::ant::lemma_ants_at_push(
                        self.ants@.take(i as int),
                        a,
                        old_foods[j].position,
                    );
                    assert(self.ants@.take(i as int + 1) =~= self.ants@.take(i as int).push(a));
                    let hits = ants_at(self.ants@.take(i as int), old_foods[j].position);
                    if a.position == old_foods[j].position {
                        lemma_harvested_size_snoc(old_foods[j].size, hits);
                        assert(pre_foods[j].position == old_foods[j].position);
                    } else {
                        assert(pre_foods[j].position != a_moved.position);
                    }
                };
            }
            i = i + 1;
        }
        proof {
            if old(self).ants_live() {
                assert forall|k: int|
                    0 <= k < self.ants@.len() implies ant_live(#[trigger] self.ants@[k]) by {
                    assert(ant_stepped(roster[k], self.ants@[k], old_foods));
                    assert(ant_live(roster[k]));
                };
                crate::ant::lemma_live_ants_all(self.ants@);
            }
        }
        let ghost moved = self.ants@;
        update_ants(&mut self.ants);
        proof {
            assert forall|k: int|
                0 <= k < self.ants@.len() implies in_interior(
                (#[trigger] self.ants@[k]).position,
                width,
                height,
            ) by {
                assert(moved.contains(self.ants@[k]));
                let j = choose|j: int| 0 <= j < moved.len() && moved[j] == self.ants@[k];
            };
        }
        let ghost trail_mid = self.pheromones@;
        update_pheromones(&mut self.pheromones);
        proof {
            assert forall|k: int|
                0 <= k < self.pheromones@.len() implies in_interior(
                (#[trigger] self.pheromones@[k]).position,
                width,
                height,
            ) by {
                assert(trail_mid.contains(self.pheromones@[k]));
                let j = choose|j: int| 0 <= j < trail_mid.len() && trail_mid[j] == self.pheromones@[k];
            };
        }
        proof {
            assert forall|j: int|
                0 <= j < self.foods@.len() implies in_interior(
                (#[trigger] self.foods@[j]).position,
                width,
                height,
            ) by {
                assert(self.foods@[j].position == old_foods[j].position);
                assert(in_interior(old(self).foods@[j].position, width, height));
            };
        }
        let roll: u32 = rng.pick(0, self.spawn_den);
        let food_spawned: bool = roll < self.spawn_num;
        let ghost harvested = self.foods@;
        if food_spawned {
            create_food(height, width, &mut self.foods, rng);
            proof {
                assert forall|k: int|
                    0 <= k < self.foods@.len() implies in_interior(
                    (#[trigger] self.foods@[k]).position,
                    width,
                    height,
                ) by {
                    if k < self.foods@.len() - 1 {
                        assert(self.foods@[k] == self.foods@.take(self.foods@.len() - 1)[k]);
                    } else {
                        assert(self.foods@[k] == self.foods@.last());
                    }
                };
            }
        }
        let ghost foods_mid = self.foods@;
        let ghost extra: Seq<Food> = if food_spawned {
            seq![foods_mid.last()]
        } else {
            Seq::empty()
        };
        update_foods(&mut self.foods);
        proof {
            assert forall|k: int|
                0 <= k < self.foods@.len() implies in_interior(
                (#[trigger] self.foods@[k]).position,
                width,
                height,
            ) by {
                assert(foods_mid.contains(self.foods@[k]));
                let j = choose|j: int| 0 <= j < foods_mid.len() && foods_mid[j] == self.foods@[k];
            };
            if old(self).ants_live() {
                // the pruning of ants was the identity, so `moved` is final
                assert(self.ants@ == moved);
                assert(self.ants@.len() == roster.len());
                // the food clause, witnessed by the spawn of this tick
                assert(moved.take(moved.len() as int) =~= moved);
                assert(harvested =~= harvested_foods(old(self).foods@, moved));
                assert(foods_mid =~= harvested_foods(old(self).foods@, moved) + extra);
                assert(extra.len() <= 1);
                assert(forall|k: int|
                    0 <= k < extra.len() ==> tick_food(
                        #[trigger] extra[k],
                        old(self).width,
                        old(self).height,
                    ));
                assert(self.foods@ == live_foods(harvested_foods(old(self).foods@, moved) + extra));
                // the trail clause, witnessed by the markers of this tick
                assert(trail_mid.take(old_trail.len() as int) == old_trail);
                assert(roster.take(roster.len() as int) =~= roster);
                assert(trail_mid.len() >= old_trail.len() + strong_layers(roster, colony_pos));
                assert forall|k: int|
                    old_trail.len() <= k < trail_mid.len() implies tick_marker(
                    #[trigger] trail_mid[k],
                    moved,
                ) by {
                    assert(tick_marker(trail_mid[k], moved.take(moved.len() as int)));
                    let t = choose|t: int|
                        0 <= t < moved.take(moved.len() as int).len() && (#[trigger] moved.take(
                            moved.len() as int,
                        )[t]).position == trail_mid[k].position && (trail_mid[k].kind is Strong
                            ==> moved.take(moved.len() as int)[t].mode is Returning);
                    assert(moved[t] == moved.take(moved.len() as int)[t]);
                };
                assert(self.pheromones@ == live_pheromones(trail_mid));
            }
        }
    }

    /// The read-only view an external renderer consumes: border
    /// dimensions, every marker with its kind, every ant position, every
    /// resource position, and the colony.
    #[verifier::loop_isolation(false)]
    pub fn snapshot(&self) -> (s: Snapshot)
        ensures
            s.width == self.width,
            s.height == self.height,
            s.colony == self.colony.position,
            s.pheromones@.len() == self.pheromones@.len(),
            forall|i: int|
                #![auto]
                0 <= i < self.pheromones@.len() ==> s.pheromones@[i].0
                    == self.pheromones@[i].position && s.pheromones@[i].1
                    == self.pheromones@[i].kind,
            s.ants@.len() == self.ants@.len(),
            forall|i: int| #![auto] 0 <= i < self.ants@.len() ==> s.ants@[i]
                == self.ants@[i].position,
            s.foods@.len() == self.foods@.len(),
            forall|i: int| #![auto] 0 <= i < self.foods@.len() ==> s.foods@[i]
                == self.foods@[i].position,
    {
        let mut pheromones: Vec<(Position, PheromoneKind)> = Vec::new();
        let mut i: usize = 0;
        while i < self.pheromones.len()
            invariant
                i <= self.pheromones@.len(),
                pheromones@.len() == i,
                forall|k: int|
                    #![auto]
                    0 <= k < i ==> pheromones@[k].0 == self.pheromones@[k].position
                        && pheromones@[k].1 == self.pheromones@[k].kind,
            decreases self.pheromones@.len() - i,
        {
            let p = self.pheromones[i];
            pheromones.push((p.position, p.kind));
            i = i + 1;
        }
        let mut ants: Vec<Position> = Vec::new();
        let mut j: usize = 0;
        while j < self.ants.len()
            invariant
                j <= self.ants@.len(),
                ants@.len() == j,
                forall|k: int| #![auto] 0 <= k < j ==> ants@[k] == self.ants@[k].position,
            decreases self.ants@.len() - j,
        {
            ants.push(self.ants[j].position);
            j = j + 1;
        }
        let mut foods: Vec<Position> = Vec::new();
        let mut m: usize = 0;
        while m < self.foods.len()
            invariant
                m <= self.foods@.len(),
                foods@.len() == m,
                forall|k: int| #![auto] 0 <= k < m ==> foods@[k] == self.foods@[k].position,
            decreases self.foods@.len() - m,
        {
            foods.push(self.foods[m].position);
            m = m + 1;
        }
        Snapshot {
            width: self.width,
            height: self.height,
            colony: self.colony.position,
            pheromones,
            ants,
            foods,
        }
    }

    /// The aging the render cadence drives: every marker and every
    /// resource grows one pass older; ants and everything else stay as
    /// they are.
    pub fn age_entities(&mut self)
        requires
            old(self).wf(),
        ensures
            final(self).wf(),
            final(self).width == old(self).width,
            final(self).height == old(self).height,
            final(self).colony == old(self).colony,
            final(self).ended == old(self).ended,
            final(self).spawn_num == old(self).spawn_num,
            final(self).spawn_den == old(self).spawn_den,
            final(self).ants == old(self).ants,
            final(self).pheromones@.len() == old(self).pheromones@.len(),
            forall|i: int|
                #![auto]
                0 <= i < old(self).pheromones@.len() ==> {
                    &&& final(self).pheromones@[i].position == old(self).pheromones@[i].position
                    &&& final(self).pheromones@[i].kind == old(self).pheromones@[i].kind
                    &&& final(self).pheromones@[i].duration == old(self).pheromones@[i].duration
                    &&& final(self).pheromones@[i].age == aged(old(self).pheromones@[i].age)
                },
            final(self).foods@.len() == old(self).foods@.len(),
            forall|i: int|
                #![auto]
                0 <= i < old(self).foods@.len() ==> {
                    &&& final(self).foods@[i].position == old(self).foods@[i].position
                    &&& final(self).foods@[i].lifespan == old(self).foods@[i].lifespan
                    &&& final(self).foods@[i].size == old(self).foods@[i].size
                    &&& final(self).foods@[i].age == aged(old(self).foods@[i].age)
                },
    {
        age_pheromones(&mut self.pheromones);
        age_foods(&mut self.foods);
    }
}

} // verus!
