use vstd::prelude::*;

use crate::geometry::Position;

verus! {

/// How many aging passes a weak marker survives.
pub const WEAK_PHEROMONE_DURATION: u32 = 10;

/// How many aging passes a strong marker survives.
pub const STRONG_PHEROMONE_DURATION: u32 = 20;

/// Weak markers are laid while exploring, strong markers while returning
/// to the colony with food.
#[derive(Clone, Copy, Debug, PartialEq, Eq, Structural)]
pub enum PheromoneKind {
    Weak,
    Strong,
}

/// A decaying scent marker. Alive while `age < duration`.
#[derive(Clone, Copy, Debug, PartialEq, Eq, Structural)]
pub struct Pheromone {
    pub position: Position,
    pub kind: PheromoneKind,
    pub duration: u32,
    pub age: u32,
}

/// The duration fixed by a marker's kind at creation.
pub open spec fn duration_of(kind: PheromoneKind) -> u32 {
    match kind {
        PheromoneKind::Weak => WEAK_PHEROMONE_DURATION,
        PheromoneKind::Strong => STRONG_PHEROMONE_DURATION,
    }
}

/// A marker that has not yet decayed away.
pub open spec fn pheromone_live(p: Pheromone) -> bool {
    p.age < p.duration
}

/// The markers of `s` that are still alive, in order.
pub open spec fn live_pheromones(s: Seq<Pheromone>) -> Seq<Pheromone> {
    s.filter(|p: Pheromone| pheromone_live(p))
}

/// A counter one aging pass further on, never wrapping around.
pub open spec fn aged(a: u32) -> u32 {
    if a == u32::MAX {
        u32::MAX
    } else {
        (a + 1) as u32
    }
}

impl Pheromone {
    /// A fresh marker: age zero, duration fixed by the kind.
    pub fn new(position: Position, kind: PheromoneKind) -> (r: Pheromone)
        ensures
            r.position == position,
            r.kind == kind,
            r.duration == duration_of(kind),
            r.age == 0,
    {
        let duration: u32 = match kind {
            PheromoneKind::Weak => WEAK_PHEROMONE_DURATION,
            PheromoneKind::Strong => STRONG_PHEROMONE_DURATION,
        };
        Pheromone { position, kind, duration, age: 0 }
    }
}

/// Drop every marker whose age has reached its duration; the survivors
/// keep their order.
pub fn update_pheromones(pheromones: &mut Vec<Pheromone>)
    ensures
        final(pheromones)@ == live_pheromones(old(pheromones)@),
        forall|i: int|
            0 <= i < final(pheromones)@.len() ==> old(pheromones)@.contains(
                #[trigger] final(pheromones)@[i],
            ),
        forall|i: int| 0 <= i < final(pheromones)@.len() ==> pheromone_live(#[trigger] final(pheromones)@[i]),
{
    let ghost all = pheromones@;
    let mut kept: Vec<Pheromone> = Vec::new();
    let mut i: usize = 0;
    while i < pheromones.len()
        invariant
            i <= pheromones@.len(),
            pheromones@ == all,
            kept@ == live_pheromones(all.take(i as int)),
            forall|k: int| 0 <= k < kept@.len() ==> all.contains(#[trigger] kept@[k]),
            forall|k: int| 0 <= k < kept@.len() ==> pheromone_live(#[trigger] kept@[k]),
        decreases pheromones@.len() - i,
    {
        let p = pheromones[i];
        proof {
            assert(all.take(i as int + 1).drop_last() =~= all.take(i as int));
            assert(all.take(i as int + 1).last() == p);
            assert(all.contains(p));
            reveal_with_fuel(Seq::filter, 2);
            assert(live_pheromones(all.take(i as int + 1)) == if pheromone_live(p) {
                live_pheromones(all.take(i as int)).push(p)
            } else {
                live_pheromones(all.take(i as int))
            });
        }
        if p.age < p.duration {
            kept.push(p);
        }
        i = i + 1;
    }
    proof {
        assert(all.take(all.len() as int) =~= all);
    }
    *pheromones = kept;
}

/// One aging pass over every marker, as driven by the render cadence.
pub fn age_pheromones(pheromones: &mut Vec<Pheromone>)
    ensures
        final(pheromones)@.len() == old(pheromones)@.len(),
        forall|i: int|
            #![auto]
            0 <= i < old(pheromones)@.len() ==> {
                &&& final(pheromones)@[i].position == old(pheromones)@[i].position
                &&& final(pheromones)@[i].kind == old(pheromones)@[i].kind
                &&& final(pheromones)@[i].duration == old(pheromones)@[i].duration
                &&& final(pheromones)@[i].age == aged(old(pheromones)@[i].age)
            },
{
    let mut i: usize = 0;
    while i < pheromones.len()
        invariant
            i <= pheromones@.len(),
            pheromones@.len() == old(pheromones)@.len(),
            forall|k: int| #![auto] i <= k < pheromones@.len() ==> pheromones@[k] == old(
                pheromones,
            )@[k],
            forall|k: int|
                #![auto]
                0 <= k < i ==> {
                    &&& pheromones@[k].position == old(pheromones)@[k].position
                    &&& pheromones@[k].kind == old(pheromones)@[k].kind
                    &&& pheromones@[k].duration == old(pheromones)@[k].duration
                    &&& pheromones@[k].age == aged(old(pheromones)@[k].age)
                },
        decreases pheromones@.len() - i,
    {
        let p = pheromones[i];
        pheromones.set(
            i,
            Pheromone {
                position: p.position,
                kind: p.kind,
                duration: p.duration,
                age: p.age.saturating_add(1),
            },
        );
        i = i + 1;
    }
}

} // verus!
