use vstd::prelude::*;

use crate::food::Food;
use crate::geometry::Position;
use crate::geometry::axis_adjacent;
use crate::geometry::axis_gap;
use crate::geometry::in_interior;
use crate::geometry::random_step;
use crate::pheromone::Pheromone;
use crate::pheromone::PheromoneKind;
use crate::pheromone::STRONG_PHEROMONE_DURATION;
use crate::pheromone::WEAK_PHEROMONE_DURATION;
use crate::rng::RandomSource;

verus! {

/// Only workers are ever spawned; soldiers exist as a role without a
/// behaviour of their own.
#[derive(Clone, Copy, Debug, PartialEq, Eq, Structural)]
pub enum AntRole {
    Soldier,
    Worker,
}

/// Wandering ants explore; returning ants carry food back to the colony.
#[derive(Clone, Copy, Debug, PartialEq, Eq, Structural)]
pub enum AntMode {
    Wandering,
    Returning,
}

/// A mobile agent. Alive while `age < lifespan`. The single-slot
/// `explored` memory keeps an ant from oscillating on one strong marker.
#[derive(Clone, Copy, Debug, PartialEq, Eq, Structural)]
pub struct Ant {
    pub position: Position,
    pub role: AntRole,
    pub moves: u16,
    pub lifespan: u32,
    pub starvation: u32,
    pub carrying_food: bool,
    pub mode: AntMode,
    pub alive: bool,
    pub age: u32,
    pub explored: Option<Pheromone>,
}

/// An ant whose age has not reached its lifespan.
pub open spec fn ant_live(a: Ant) -> bool {
    a.age < a.lifespan
}

/// The ants of `s` that are still alive, in order.
pub open spec fn live_ants(s: Seq<Ant>) -> Seq<Ant> {
    s.filter(|a: Ant| ant_live(a))
}

/// Every marker of `phs` sits strictly inside the walls.
pub open spec fn pheromones_in_interior(phs: Seq<Pheromone>, width: u16, height: u16) -> bool {
    forall|i: int|
        0 <= i < phs.len() ==> in_interior((#[trigger] phs[i]).position, width, height)
}

impl Ant {
    /// A fresh ant: alive, age zero, nothing remembered yet.
    pub fn new(
        position: Position,
        role: AntRole,
        moves: u16,
        lifespan: u32,
        starvation: u32,
        carrying_food: bool,
        mode: AntMode,
    ) -> (r: Ant)
        ensures
            r.position == position,
            r.role == role,
            r.moves == moves,
            r.lifespan == lifespan,
            r.starvation == starvation,
            r.carrying_food == carrying_food,
            r.mode == mode,
            r.alive,
            r.age == 0,
            r.explored is None,
    {
        Ant {
            position,
            role,
            moves,
            lifespan,
            starvation,
            carrying_food,
            mode,
            alive: true,
            age: 0,
            explored: None,
        }
    }
}

/// The first strong marker of the collection, in insertion order: the one
/// a wandering ant without a memory considers.
pub open spec fn first_strong(phs: Seq<Pheromone>) -> Option<Pheromone>
    decreases phs.len(),
{
    if phs.len() == 0 {
        None
    } else if phs[0].kind is Strong {
        Some(phs[0])
    } else {
        first_strong(phs.drop_first())
    }
}

/// A wandering ant teleports exactly when it remembers nothing yet and the
/// first strong marker lies on an adjacent axis.
pub open spec fn wander_teleports(ant: Ant, phs: Seq<Pheromone>) -> bool {
    &&& ant.explored is None
    &&& first_strong(phs) is Some
    &&& axis_adjacent(ant.position, first_strong(phs)->0.position)
}

/// A wandering ant stalls exactly when it remembers nothing yet and the
/// first strong marker exists but is not adjacent: the step ends with no
/// movement and no fresh trail.
pub open spec fn wander_stalls(ant: Ant, phs: Seq<Pheromone>) -> bool {
    &&& ant.explored is None
    &&& first_strong(phs) is Some
    &&& !axis_adjacent(ant.position, first_strong(phs)->0.position)
}

/// The first strong marker is, indeed, strong.
pub proof fn lemma_first_strong_is_strong(phs: Seq<Pheromone>)
    ensures
        first_strong(phs) matches Some(p) ==> p.kind is Strong,
    decreases phs.len(),
{
    if phs.len() > 0 && !(phs[0].kind is Strong) {
        lemma_first_strong_is_strong(phs.drop_first());
    }
}

proof fn lemma_first_strong_is_elem(phs: Seq<Pheromone>)
    ensures
        first_strong(phs) matches Some(p) ==> phs.contains(p),
    decreases phs.len(),
{
    if phs.len() > 0 && !(phs[0].kind is Strong) {
        lemma_first_strong_is_elem(phs.drop_first());
        if first_strong(phs.drop_first()) is Some {
            let p = first_strong(phs.drop_first())->0;
            let j = choose|j: int| 0 <= j < phs.drop_first().len() && phs.drop_first()[j] == p;
            assert(phs[j + 1] == p);
        }
    }
}

/// Undirected exploration, biased toward known strong trails. An ant that
/// remembers nothing considers only the first strong marker: it teleports
/// onto it and records it when the marker is adjacent, and otherwise ends
/// the step where it stands, laying nothing. Only with no strong marker at
/// all, or with a marker already remembered, does it take one random
/// clamped step and lay a fresh weak marker.
pub fn wandering_ant(
    height: u16,
    width: u16,
    ant: &mut Ant,
    pheromones: &mut Vec<Pheromone>,
    rng: &mut RandomSource,
)
    requires
        3 <= width,
        3 <= height,
        in_interior(old(ant).position, width, height),
        pheromones_in_interior(old(pheromones)@, width, height),
    ensures
        final(ant).role == old(ant).role,
        final(ant).moves == old(ant).moves,
        final(ant).lifespan == old(ant).lifespan,
        final(ant).starvation == old(ant).starvation,
        final(ant).carrying_food == old(ant).carrying_food,
        final(ant).mode == old(ant).mode,
        final(ant).alive == old(ant).alive,
        final(ant).age == old(ant).age,
        in_interior(final(ant).position, width, height),
        pheromones_in_interior(final(pheromones)@, width, height),
        wander_teleports(*old(ant), old(pheromones)@) ==> {
            &&& final(ant).position == first_strong(old(pheromones)@)->0.position
            &&& final(ant).explored == Some(first_strong(old(pheromones)@)->0)
            &&& first_strong(old(pheromones)@)->0.kind is Strong
            &&& final(pheromones)@ == old(pheromones)@
        },
        wander_stalls(*old(ant), old(pheromones)@) ==> {
            &&& *final(ant) == *old(ant)
            &&& final(pheromones)@ == old(pheromones)@
        },
        (!wander_teleports(*old(ant), old(pheromones)@) && !wander_stalls(
            *old(ant),
            old(pheromones)@,
        )) ==> {
            &&& final(ant).explored == old(ant).explored
            &&& axis_gap(final(ant).position.x, old(ant).position.x) <= 1
            &&& axis_gap(final(ant).position.y, old(ant).position.y) <= 1
            &&& final(pheromones)@.len() == old(pheromones)@.len() + 1
            &&& final(pheromones)@.take(old(pheromones)@.len() as int) == old(pheromones)@
            &&& final(pheromones)@.last().position == final(ant).position
            &&& final(pheromones)@.last().kind is Weak
            &&& final(pheromones)@.last().duration == WEAK_PHEROMONE_DURATION
            &&& final(pheromones)@.last().age == 0
        },
{
    if ant.explored.is_none() {
        let mut i: usize = 0;
        let mut found: Option<Pheromone> = None;
        proof {
            assert(pheromones@.skip(0) =~= pheromones@);
        }
        while i < pheromones.len() && found.is_none()
            invariant
                i <= pheromones@.len(),
                *ant == *old(ant),
                pheromones@ == old(pheromones)@,
                match found {
                    None => first_strong(pheromones@) == first_strong(
                        pheromones@.skip(i as int),
                    ),
                    Some(p) => first_strong(pheromones@) == Some(p),
                },
            decreases pheromones@.len() - i,
        {
            let p = pheromones[i];
            if p.kind == PheromoneKind::Strong {
                found = Some(p);
                proof {
                    assert(pheromones@.skip(i as int)[0] == p);
                }
            } else {
                proof {
                    assert(pheromones@.skip(i as int).drop_first() =~= pheromones@.skip(
                        i as int + 1,
                    ));
                    assert(pheromones@.skip(i as int)[0] == p);
                }
            }
            i = i + 1;
        }
        proof {
            if found is None {
                assert(pheromones@.skip(pheromones@.len() as int) =~= Seq::<Pheromone>::empty());
            }
            lemma_first_strong_is_elem(pheromones@);
            lemma_first_strong_is_strong(pheromones@);
        }
        match found {
            Some(p) => {
                if ant.position.is_axis_adjacent(p.position) {
                    ant.position = p.position;
                    ant.explored = Some(p);
                } else {
                    // the one usable marker is out of reach: the step
                    // ends with no movement and no fresh trail
                }
                return ;
            },
            None => {},
        }
    }
    let np = random_step(ant.position, width, height, rng);
    ant.position = np;
    let ph = Pheromone::new(np, PheromoneKind::Weak);
    pheromones.push(ph);
    proof {
        assert(pheromones@.take(old(pheromones)@.len() as int) =~= old(pheromones)@);
    }
}

/// Strictly closer to the colony than the ant is, on at least one axis.
pub open spec fn closer_on_axis(p: Position, a: Position, colony: Position) -> bool {
    axis_gap(p.x, colony.x) < axis_gap(a.x, colony.x) || axis_gap(p.y, colony.y) < axis_gap(
        a.y,
        colony.y,
    )
}

/// The last adjacent strong marker, the preferred target of a returning
/// ant; later entries win ties.
pub open spec fn last_adjacent_strong(phs: Seq<Pheromone>, a: Position) -> Option<Pheromone>
    decreases phs.len(),
{
    if phs.len() == 0 {
        None
    } else if phs.last().kind is Strong && axis_adjacent(a, phs.last().position) {
        Some(phs.last())
    } else {
        last_adjacent_strong(phs.drop_last(), a)
    }
}

/// The last adjacent weak marker that is strictly closer to the colony;
/// accepted only when no strong marker is adjacent.
pub open spec fn last_closer_weak(phs: Seq<Pheromone>, a: Position, colony: Position) -> Option<
    Pheromone,
>
    decreases phs.len(),
{
    if phs.len() == 0 {
        None
    } else if phs.last().kind is Weak && axis_adjacent(a, phs.last().position) && closer_on_axis(
        phs.last().position,
        a,
        colony,
    ) {
        Some(phs.last())
    } else {
        last_closer_weak(phs.drop_last(), a, colony)
    }
}

/// The marker a returning ant moves onto, if any: an adjacent strong one
/// first, otherwise an adjacent weak one that brings it closer.
pub open spec fn return_candidate(phs: Seq<Pheromone>, a: Position, colony: Position) -> Option<
    Pheromone,
> {
    if last_adjacent_strong(phs, a) is Some {
        last_adjacent_strong(phs, a)
    } else {
        last_closer_weak(phs, a, colony)
    }
}

proof fn lemma_last_adjacent_strong_is_elem(phs: Seq<Pheromone>, a: Position)
    ensures
        last_adjacent_strong(phs, a) matches Some(p) ==> phs.contains(p) && axis_adjacent(
            a,
            p.position,
        ),
    decreases phs.len(),
{
    if phs.len() > 0 && !(phs.last().kind is Strong && axis_adjacent(a, phs.last().position)) {
        lemma_last_adjacent_strong_is_elem(phs.drop_last(), a);
        if last_adjacent_strong(phs.drop_last(), a) is Some {
            let p = last_adjacent_strong(phs.drop_last(), a)->0;
            let j = choose|j: int| 0 <= j < phs.drop_last().len() && phs.drop_last()[j] == p;
            assert(phs[j] == p);
        }
    }
}

proof fn lemma_last_closer_weak_is_elem(phs: Seq<Pheromone>, a: Position, colony: Position)
    ensures
        last_closer_weak(phs, a, colony) matches Some(p) ==> phs.contains(p) && axis_adjacent(
            a,
            p.position,
        ),
    decreases phs.len(),
{
    if phs.len() > 0 && !(phs.last().kind is Weak && axis_adjacent(a, phs.last().position)
        && closer_on_axis(phs.last().position, a, colony)) {
        lemma_last_closer_weak_is_elem(phs.drop_last(), a, colony);
        if last_closer_weak(phs.drop_last(), a, colony) is Some {
            let p = last_closer_weak(phs.drop_last(), a, colony)->0;
            let j = choose|j: int| 0 <= j < phs.drop_last().len() && phs.drop_last()[j] == p;
            assert(phs[j] == p);
        }
    }
}

fn is_closer_on_axis(p: Position, a: Position, colony: Position) -> (r: bool)
    ensures
        r == closer_on_axis(p, a, colony),
{
    let px: u16 = if p.x >= colony.x {
        p.x - colony.x
    } else {
        colony.x - p.x
    };
    let py: u16 = if p.y >= colony.y {
        p.y - colony.y
    } else {
        colony.y - p.y
    };
    let ax: u16 = if a.x >= colony.x {
        a.x - colony.x
    } else {
        colony.x - a.x
    };
    let ay: u16 = if a.y >= colony.y {
        a.y - colony.y
    } else {
        colony.y - a.y
    };
    px < ax || py < ay
}

/// Directed return to the colony: snap onto it when adjacent, else move
/// onto the best adjacent marker, else take one random clamped step; every
/// move (but the final snap) lays a fresh strong marker behind it.
pub fn returning_ant(
    height: u16,
    width: u16,
    ant: &mut Ant,
    pheromones: &mut Vec<Pheromone>,
    colony: Position,
    rng: &mut RandomSource,
)
    requires
        3 <= width,
        3 <= height,
        in_interior(old(ant).position, width, height),
        in_interior(colony, width, height),
        pheromones_in_interior(old(pheromones)@, width, height),
    ensures
        final(ant).role == old(ant).role,
        final(ant).moves == old(ant).moves,
        final(ant).lifespan == old(ant).lifespan,
        final(ant).starvation == old(ant).starvation,
        final(ant).carrying_food == old(ant).carrying_food,
        final(ant).mode == old(ant).mode,
        final(ant).alive == old(ant).alive,
        final(ant).age == old(ant).age,
        final(ant).explored == old(ant).explored,
        in_interior(final(ant).position, width, height),
        pheromones_in_interior(final(pheromones)@, width, height),
        axis_adjacent(old(ant).position, colony) ==> {
            &&& final(ant).position == colony
            &&& final(pheromones)@ == old(pheromones)@
        },
        !axis_adjacent(old(ant).position, colony) ==> {
            &&& (return_candidate(old(pheromones)@, old(ant).position, colony) matches Some(p)
                ==> final(ant).position == p.position && axis_adjacent(
                    old(ant).position,
                    final(ant).position,
                ))
            &&& (return_candidate(old(pheromones)@, old(ant).position, colony) is None ==> {
                &&& axis_gap(final(ant).position.x, old(ant).position.x) <= 1
                &&& axis_gap(final(ant).position.y, old(ant).position.y) <= 1
            })
            &&& final(pheromones)@.len() == old(pheromones)@.len() + 1
            &&& final(pheromones)@.take(old(pheromones)@.len() as int) == old(pheromones)@
            &&& final(pheromones)@.last().position == final(ant).position
            &&& final(pheromones)@.last().kind is Strong
            &&& final(pheromones)@.last().duration == STRONG_PHEROMONE_DURATION
            &&& final(pheromones)@.last().age == 0
        },
{
    if ant.position.is_axis_adjacent(colony) {
        ant.position = colony;
        return ;
    }
    let mut best_strong: Option<Pheromone> = None;
    let mut best_weak: Option<Pheromone> = None;
    let mut i: usize = 0;
    while i < pheromones.len()
        invariant
            i <= pheromones@.len(),
            *ant == *old(ant),
            pheromones@ == old(pheromones)@,
            best_strong == last_adjacent_strong(pheromones@.take(i as int), old(ant).position),
            best_weak == last_closer_weak(
                pheromones@.take(i as int),
                old(ant).position,
                colony,
            ),
        decreases pheromones@.len() - i,
    {
        let p = pheromones[i];
        proof {
            assert(pheromones@.take(i as int + 1).drop_last() =~= pheromones@.take(i as int));
            assert(pheromones@.take(i as int + 1).last() == p);
        }
        if p.kind == PheromoneKind::Strong {
            if ant.position.is_axis_adjacent(p.position) {
                best_strong = Some(p);
            }
        } else {
            if ant.position.is_axis_adjacent(p.position) && is_closer_on_axis(
                p.position,
                ant.position,
                colony,
            ) {
                best_weak = Some(p);
            }
        }
        i = i + 1;
    }
    proof {
        assert(pheromones@.take(pheromones@.len() as int) =~= pheromones@);
        lemma_last_adjacent_strong_is_elem(pheromones@, old(ant).position);
        lemma_last_closer_weak_is_elem(pheromones@, old(ant).position, colony);
    }
    let candidate: Option<Pheromone> = if best_strong.is_some() {
        best_strong
    } else {
        best_weak
    };
    match candidate {
        Some(p) => {
            ant.position = p.position;
        },
        None => {
            let np = random_step(ant.position, width, height, rng);
            ant.position = np;
        },
    }
    let ph = Pheromone::new(ant.position, PheromoneKind::Strong);
    pheromones.push(ph);
    proof {
        assert(pheromones@.take(old(pheromones)@.len() as int) =~= old(pheromones)@);
    }
}

/// How many ants of the roster stand exactly on `p`.
pub open spec fn ants_at(ants: Seq<Ant>, p: Position) -> nat
    decreases ants.len(),
{
    if ants.len() == 0 {
        0
    } else {
        ants_at(ants.drop_last(), p) + (if ants.last().position == p {
            1nat
        } else {
            0nat
        })
    }
}

/// One more ant on the roster raises the count on its own cell by one.
pub proof fn lemma_ants_at_push(ants: Seq<Ant>, a: Ant, p: Position)
    ensures
        ants_at(ants.push(a), p) == ants_at(ants, p) + (if a.position == p {
            1nat
        } else {
            0nat
        }),
{
    assert(ants.push(a).drop_last() =~= ants);
    assert(ants.push(a).last() == a);
}

/// Whether food lies on a cell depends on the positions alone.
pub proof fn lemma_food_at_same_positions(f1: Seq<Food>, f2: Seq<Food>, p: Position)
    requires
        f1.len() == f2.len(),
        forall|j: int| 0 <= j < f1.len() ==> (#[trigger] f1[j]).position == f2[j].position,
    ensures
        food_at(f1, p) == food_at(f2, p),
{
    if food_at(f1, p) {
        let j = choose|j: int| 0 <= j < f1.len() && (#[trigger] f1[j]).position == p;
        assert(f2[j].position == p);
    }
    if food_at(f2, p) {
        let j = choose|j: int| 0 <= j < f2.len() && (#[trigger] f2[j]).position == p;
        assert(f1[j].position == p);
    }
}

/// There is a resource lying exactly at `p`.
pub open spec fn food_at(foods: Seq<Food>, p: Position) -> bool {
    exists|i: int| 0 <= i < foods.len() && (#[trigger] foods[i]).position == p
}

/// Harvesting: every resource under the ant shrinks by exactly two (never
/// below zero), and the ant turns around, now carrying food.
pub fn check_ant_found_food(ant: &mut Ant, foods: &mut Vec<Food>)
    ensures
        final(ant).position == old(ant).position,
        final(ant).role == old(ant).role,
        final(ant).moves == old(ant).moves,
        final(ant).lifespan == old(ant).lifespan,
        final(ant).starvation == old(ant).starvation,
        final(ant).alive == old(ant).alive,
        final(ant).age == old(ant).age,
        final(ant).explored == old(ant).explored,
        final(ant).mode == if food_at(old(foods)@, old(ant).position) {
            AntMode::Returning
        } else {
            old(ant).mode
        },
        final(ant).carrying_food == (old(ant).carrying_food || food_at(
            old(foods)@,
            old(ant).position,
        )),
        final(foods)@.len() == old(foods)@.len(),
        forall|i: int|
            #![auto]
            0 <= i < old(foods)@.len() ==> {
                &&& final(foods)@[i].position == old(foods)@[i].position
                &&& final(foods)@[i].lifespan == old(foods)@[i].lifespan
                &&& final(foods)@[i].age == old(foods)@[i].age
                &&& final(foods)@[i].size == if old(foods)@[i].position == old(ant).position {
                    if old(foods)@[i].size >= 2 {
                        (old(foods)@[i].size - 2) as u32
                    } else {
                        0u32
                    }
                } else {
                    old(foods)@[i].size
                }
            },
{
    let mut i: usize = 0;
    while i < foods.len()
        invariant
            i <= foods@.len(),
            foods@.len() == old(foods)@.len(),
            ant.position == old(ant).position,
            ant.role == old(ant).role,
            ant.moves == old(ant).moves,
            ant.lifespan == old(ant).lifespan,
            ant.starvation == old(ant).starvation,
            ant.alive == old(ant).alive,
            ant.age == old(ant).age,
            ant.explored == old(ant).explored,
            ant.mode == if food_at(old(foods)@.take(i as int), old(ant).position) {
                AntMode::Returning
            } else {
                old(ant).mode
            },
            ant.carrying_food == (old(ant).carrying_food || food_at(
                old(foods)@.take(i as int),
                old(ant).position,
            )),
            forall|k: int| #![auto] i <= k < foods@.len() ==> foods@[k] == old(foods)@[k],
            forall|k: int|
                #![auto]
                0 <= k < i ==> {
                    &&& foods@[k].position == old(foods)@[k].position
                    &&& foods@[k].lifespan == old(foods)@[k].lifespan
                    &&& foods@[k].age == old(foods)@[k].age
                    &&& foods@[k].size == if old(foods)@[k].position == old(ant).position {
                        if old(foods)@[k].size >= 2 {
                            (old(foods)@[k].size - 2) as u32
                        } else {
                            0u32
                        }
                    } else {
                        old(foods)@[k].size
                    }
                },
        decreases foods@.len() - i,
    {
        let f = foods[i];
        if f.position == ant.position {
            ant.mode = AntMode::Returning;
            ant.carrying_food = true;
            foods.set(
                i,
                Food {
                    position: f.position,
                    lifespan: f.lifespan,
                    size: f.size.saturating_sub(2),
                    age: f.age,
                },
            );
            proof {
                assert(old(foods)@.take(i as int + 1)[i as int] == old(foods)@[i as int]);
            }
        }
        proof {
            if food_at(old(foods)@.take(i as int), old(ant).position) {
                let j = choose|j: int|
                    0 <= j < i && (#[trigger] old(foods)@.take(i as int)[j]).position == old(
                        ant,
                    ).position;
                assert(old(foods)@.take(i as int + 1)[j] == old(foods)@[j]);
                assert(food_at(old(foods)@.take(i as int + 1), old(ant).position));
            }
            if !food_at(old(foods)@.take(i as int + 1), old(ant).position) {
                assert(old(foods)@.take(i as int + 1)[i as int] == old(foods)@[i as int]);
            }
        }
        i = i + 1;
    }
    proof {
        assert(old(foods)@.take(old(foods)@.len() as int) =~= old(foods)@);
    }
}

/// A roster where every ant is alive is left whole by the pruning.
pub proof fn lemma_live_ants_all(s: Seq<Ant>)
    requires
        forall|i: int| 0 <= i < s.len() ==> ant_live(#[trigger] s[i]),
    ensures
        live_ants(s) == s,
    decreases s.len(),
{
    reveal_with_fuel(Seq::filter, 2);
    if s.len() == 0 {
        assert(live_ants(s) =~= s);
    } else {
        lemma_live_ants_all(s.drop_last());
        assert(live_ants(s) == live_ants(s.drop_last()).push(s.last()));
        assert(s.drop_last().push(s.last()) =~= s);
    }
}

/// Drop every ant whose age has reached its lifespan; the survivors keep
/// their order.
pub fn update_ants(ants: &mut Vec<Ant>)
    ensures
        final(ants)@ == live_ants(old(ants)@),
        forall|i: int|
            0 <= i < final(ants)@.len() ==> old(ants)@.contains(#[trigger] final(ants)@[i]),
        forall|i: int| 0 <= i < final(ants)@.len() ==> ant_live(#[trigger] final(ants)@[i]),
{
    let ghost all = ants@;
    let mut kept: Vec<Ant> = Vec::new();
    let mut i: usize = 0;
    while i < ants.len()
        invariant
            i <= ants@.len(),
            ants@ == all,
            kept@ == live_ants(all.take(i as int)),
            forall|k: int| 0 <= k < kept@.len() ==> all.contains(#[trigger] kept@[k]),
            forall|k: int| 0 <= k < kept@.len() ==> ant_live(#[trigger] kept@[k]),
        decreases ants@.len() - i,
    {
        let a = ants[i];
        proof {
            assert(all.take(i as int + 1).drop_last() =~= all.take(i as int));
            assert(all.take(i as int + 1).last() == a);
            assert(all.contains(a));
            reveal_with_fuel(Seq::filter, 2);
            assert(live_ants(all.take(i as int + 1)) == if ant_live(a) {
                live_ants(all.take(i as int)).push(a)
            } else {
                live_ants(all.take(i as int))
            });
        }
        if a.age < a.lifespan {
            kept.push(a);
        }
        i = i + 1;
    }
    proof {
        assert(all.take(all.len() as int) =~= all);
    }
    *ants = kept;
}

} // verus!
