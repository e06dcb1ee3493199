use vstd::prelude::*;

use crate::geometry::Position;
use crate::geometry::in_interior;
use crate::rng::RandomSource;

verus! {

/// A depletable, expiring resource. Alive while `age < lifespan` and
/// `size > 0`.
#[derive(Clone, Copy, Debug, PartialEq, Eq, Structural)]
pub struct Food {
    pub position: Position,
    pub lifespan: u32,
    pub size: u32,
    pub age: u32,
}

/// A resource that has neither expired nor been eaten up.
pub open spec fn food_live(f: Food) -> bool {
    f.age < f.lifespan && f.size > 0
}

/// A size after `hits` harvests of two units each, never below zero.
pub open spec fn harvested_size(size: u32, hits: nat) -> u32
    decreases hits,
{
    if hits == 0 {
        size
    } else {
        harvested_size(
            (if size >= 2 {
                (size - 2) as u32
            } else {
                0u32
            }),
            (hits - 1) as nat,
        )
    }
}

/// One more harvest takes two more units off the end of the chain.
pub proof fn lemma_harvested_size_snoc(size: u32, hits: nat)
    ensures
        harvested_size(size, hits + 1) == (if harvested_size(size, hits) >= 2 {
            (harvested_size(size, hits) - 2) as u32
        } else {
            0u32
        }),
    decreases hits,
{
    let shrunk: u32 = if size >= 2 {
        (size - 2) as u32
    } else {
        0u32
    };
    if hits == 0 {
        assert(harvested_size(size, 1) == harvested_size(shrunk, 0));
        assert(harvested_size(shrunk, 0) == shrunk);
    } else {
        lemma_harvested_size_snoc(shrunk, (hits - 1) as nat);
        assert(harvested_size(size, hits + 1) == harvested_size(shrunk, hits));
        assert(harvested_size(size, hits) == harvested_size(shrunk, (hits - 1) as nat));
    }
}

/// The resources of `s` that are still alive, in order.
pub open spec fn live_foods(s: Seq<Food>) -> Seq<Food> {
    s.filter(|f: Food| food_live(f))
}

impl Food {
    /// A fresh resource at a random cell clear of all four walls, with
    /// randomized lifespan and size.
    pub fn new(width: u16, height: u16, rng: &mut RandomSource) -> (r: Food)
        requires
            3 <= width,
            3 <= height,
        ensures
            in_interior(r.position, width, height),
            1 <= r.position.x < width - 1,
            1 <= r.position.y < height - 1,
            30 <= r.lifespan < 200,
            50 <= r.size < 100,
            r.age == 0,
    {
        let x: u32 = rng.pick(1, (width - 1) as u32);
        let y: u32 = rng.pick(1, (height - 1) as u32);
        let position = Position { x: x as u16, y: y as u16 };
        let lifespan: u32 = rng.pick(30, 200);
        let size: u32 = rng.pick(50, 100);
        Food { position, lifespan, size, age: 0 }
    }
}

/// Append one freshly spawned resource; everything already present is
/// left as it is.
pub fn create_food(height: u16, width: u16, foods: &mut Vec<Food>, rng: &mut RandomSource)
    requires
        3 <= width,
        3 <= height,
    ensures
        final(foods)@.len() == old(foods)@.len() + 1,
        final(foods)@.take(old(foods)@.len() as int) == old(foods)@,
        in_interior(final(foods)@.last().position, width, height),
        1 <= final(foods)@.last().position.x < width - 1,
        1 <= final(foods)@.last().position.y < height - 1,
        30 <= final(foods)@.last().lifespan < 200,
        50 <= final(foods)@.last().size < 100,
        final(foods)@.last().age == 0,
{
    let f = Food::new(width, height, rng);
    foods.push(f);
    proof {
        assert(foods@.take(old(foods)@.len() as int) =~= old(foods)@);
    }
}

/// Drop every resource that has expired or been fully consumed; the
/// survivors keep their order.
pub fn update_foods(foods: &mut Vec<Food>)
    ensures
        final(foods)@ == live_foods(old(foods)@),
        forall|i: int|
            0 <= i < final(foods)@.len() ==> old(foods)@.contains(#[trigger] final(foods)@[i]),
{
    let ghost all = foods@;
    let mut kept: Vec<Food> = Vec::new();
    let mut i: usize = 0;
    while i < foods.len()
        invariant
            i <= foods@.len(),
            foods@ == all,
            kept@ == live_foods(all.take(i as int)),
            forall|k: int| 0 <= k < kept@.len() ==> all.contains(#[trigger] kept@[k]),
            forall|k: int| 0 <= k < kept@.len() ==> food_live(#[trigger] kept@[k]),
        decreases foods@.len() - i,
    {
        let f = foods[i];
        proof {
            assert(all.take(i as int + 1).drop_last() =~= all.take(i as int));
            assert(all.take(i as int + 1).last() == f);
            assert(all.contains(f));
            reveal_with_fuel(Seq::filter, 2);
            assert(live_foods(all.take(i as int + 1)) == if food_live(f) {
                live_foods(all.take(i as int)).push(f)
            } else {
                live_foods(all.take(i as int))
            });
        }
        if f.age < f.lifespan && f.size > 0 {
            kept.push(f);
        }
        i = i + 1;
    }
    proof {
        assert(all.take(all.len() as int) =~= all);
    }
    *foods = kept;
}

/// One aging pass over every resource, as driven by the render cadence.
pub fn age_foods(foods: &mut Vec<Food>)
    ensures
        final(foods)@.len() == old(foods)@.len(),
        forall|i: int|
            #![auto]
            0 <= i < old(foods)@.len() ==> {
                &&& final(foods)@[i].position == old(foods)@[i].position
                &&& final(foods)@[i].lifespan == old(foods)@[i].lifespan
                &&& final(foods)@[i].size == old(foods)@[i].size
                &&& final(foods)@[i].age == crate::pheromone::aged(old(foods)@[i].age)
            },
{
    let mut i: usize = 0;
    while i < foods.len()
        invariant
            i <= foods@.len(),
            foods@.len() == old(foods)@.len(),
            forall|k: int| #![auto] i <= k < foods@.len() ==> foods@[k] == old(foods)@[k],
            forall|k: int|
                #![auto]
                0 <= k < i ==> {
                    &&& foods@[k].position == old(foods)@[k].position
                    &&& foods@[k].lifespan == old(foods)@[k].lifespan
                    &&& foods@[k].size == old(foods)@[k].size
                    &&& foods@[k].age == crate::pheromone::aged(old(foods)@[k].age)
                },
        decreases foods@.len() - i,
    {
        let f = foods[i];
        foods.set(
            i,
            Food {
                position: f.position,
                lifespan: f.lifespan,
                size: f.size,
                age: f.age.saturating_add(1),
            },
        );
        i = i + 1;
    }
}

} // verus!
