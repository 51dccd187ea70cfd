//! What a tick does, stated over the relations that the entities publish
//! (see `Entity`), and what follows from it for the dead, for the newly born
//! and for those that collide.
//!
//! A tick has four phases, in this order: every entity thinks; those that
//! reported their death are swept out; the newly born are taken in; every
//! entity meets every entity that stands before it.

use crate::entity::{Entity, State};
use crate::input::Input;
use crate::lifecycle::{
    adopted, dead_of, lemma_each_pair_meets_once, lemma_sweep_keeps_the_living, origins, pairs,
    swept,
};
use vstd::prelude::*;

verus! {

/// One call of the free function `collide` on the entities `a` and `b`: both
/// lend out their bodies, and where both have one the bodies are resolved.
/// Where one of them has none, there is no energy and no body is changed.
pub open spec fn touched<E: Entity>(
    a: E,
    b: E,
    energy: Option<E::Energy>,
    a_after: E,
    b_after: E,
) -> bool {
    exists|
        x: Option<E::Body>,
        y: Option<E::Body>,
        x_after: Option<E::Body>,
        y_after: Option<E::Body>,
    |
        {
            &&& #[trigger] E::embodied(a, x, x_after, a_after)
            &&& #[trigger] E::embodied(b, y, y_after, b_after)
            &&& match (x, y) {
                (Some(i), Some(j)) => {
                    &&& x_after is Some
                    &&& y_after is Some
                    &&& E::resolved(i, j, energy, x_after->0, y_after->0)
                },
                _ => energy is None && x_after == x && y_after == y,
            }
        }
}

/// What follows a call of `collide` on `a` and `b`: where it found an
/// energy, `a` is told of `b` and then `b` of `a`, both with that energy;
/// where it found none, nothing is done.
pub open spec fn dispatched<E: Entity>(
    a: E,
    b: E,
    energy: Option<E::Energy>,
    a_after: E,
    b_after: E,
) -> bool {
    match energy {
        Some(e) => exists|a_mid: E, b_mid: E|
            {
                &&& #[trigger] E::collided(a, b, e, a_mid, b_mid)
                &&& E::collided(b_mid, a_mid, e, b_after, a_after)
            },
        None => a_after == a && b_after == b,
    }
}

/// One visit of the collision pass to the pair `a`, `b`.
pub open spec fn met<E: Entity>(a: E, b: E, a_after: E, b_after: E) -> bool {
    exists|energy: Option<E::Energy>, a_mid: E, b_mid: E|
        {
            &&& #[trigger] touched(a, b, energy, a_mid, b_mid)
            &&& dispatched(a_mid, b_mid, energy, a_after, b_after)
        }
}

/// One visit of the collision pass to the places `i` and `j` of a
/// collection: the two entries meet, and every other entry is left as it is.
pub open spec fn met_at<E: Entity>(before: Seq<E>, i: int, j: int, after: Seq<E>) -> bool {
    &&& 0 <= j < i < before.len()
    &&& after.len() == before.len()
    &&& met(before[i], before[j], after[i], after[j])
    &&& forall|k: int| 0 <= k < before.len() && k != i && k != j ==> after[k] == before[k]
}

/// The visits of `schedule`, one after the other, lead from `before` to
/// `after`.
pub open spec fn ran<E: Entity>(before: Seq<E>, schedule: Seq<(int, int)>, after: Seq<E>) -> bool
    decreases schedule.len(),
{
    if schedule.len() == 0 {
        after == before
    } else {
        exists|mid: Seq<E>|
            {
                &&& ran(before, schedule.drop_last(), mid)
                &&& #[trigger] met_at(mid, schedule.last().0, schedule.last().1, after)
            }
    }
}

/// A whole collision pass leads from `before` to `after`.
pub open spec fn collided_all<E: Entity>(before: Seq<E>, after: Seq<E>) -> bool {
    ran(before, pairs(before.len()), after)
}

/// The first `count` entities of `before` have thought, in their order. The
/// gauges and the list of the newly born go from each entity to the next.
/// Of `states` and `after` only the first `count` entries are spoken of.
pub open spec fn thought_upto<E: Entity>(
    count: nat,
    before: Seq<E>,
    dt: E::Step,
    input: Input,
    hud: E::Hud,
    born: Seq<E>,
    states: Seq<State>,
    after: Seq<E>,
    hud_after: E::Hud,
    born_after: Seq<E>,
) -> bool
    decreases count,
{
    if count == 0 {
        hud_after == hud && born_after == born
    } else {
        exists|hud_mid: E::Hud, born_mid: Seq<E>|
            {
                &&& thought_upto(
                    (count - 1) as nat,
                    before,
                    dt,
                    input,
                    hud,
                    born,
                    states,
                    after,
                    hud_mid,
                    born_mid,
                )
                &&& #[trigger] E::thought(
                    before[count - 1],
                    dt,
                    input,
                    hud_mid,
                    born_mid,
                    states[count - 1],
                    after[count - 1],
                    hud_after,
                    born_after,
                )
            }
    }
}

/// A whole think phase: every entity of `before` has thought once, in the
/// order of the collection, and none else. It began with no newly born.
pub open spec fn thought_all<E: Entity>(
    before: Seq<E>,
    dt: E::Step,
    input: Input,
    hud: E::Hud,
    states: Seq<State>,
    after: Seq<E>,
    hud_after: E::Hud,
    born: Seq<E>,
) -> bool {
    &&& states.len() == before.len()
    &&& after.len() == before.len()
    &&& thought_upto(
        before.len(),
        before,
        dt,
        input,
        hud,
        Seq::empty(),
        states,
        after,
        hud_after,
        born,
    )
}

/// A whole tick: the think phase, the sweep of those that reported their
/// death, the intake of the newly born, and the collision pass.
pub open spec fn ticked<E: Entity>(
    before: Seq<E>,
    dt: E::Step,
    input: Input,
    hud: E::Hud,
    after: Seq<E>,
    hud_after: E::Hud,
) -> bool {
    exists|states: Seq<State>, thought: Seq<E>, born: Seq<E>|
        {
            &&& #[trigger] thought_all(before, dt, input, hud, states, thought, hud_after, born)
            &&& collided_all(adopted(swept(thought, dead_of(states)), born), after)
        }
}

/// The first `count` entities of `before` have been drawn, in their order,
/// on a renderer that goes from each entity to the next.
pub open spec fn drawn_upto<E: Entity>(
    count: nat,
    before: Seq<E>,
    renderer: E::Renderer,
    after: Seq<E>,
    renderer_after: E::Renderer,
) -> bool
    decreases count,
{
    if count == 0 {
        renderer_after == renderer
    } else {
        exists|renderer_mid: E::Renderer|
            {
                &&& drawn_upto(
                    (count - 1) as nat,
                    before,
                    renderer,
                    after,
                    renderer_mid,
                )
                &&& #[trigger] E::drawn(
                    before[count - 1],
                    renderer_mid,
                    after[count - 1],
                    renderer_after,
                )
            }
    }
}

/// Every entity of `before` has been drawn once, in the order of the
/// collection.
pub open spec fn drawn_all<E: Entity>(
    before: Seq<E>,
    renderer: E::Renderer,
    after: Seq<E>,
    renderer_after: E::Renderer,
) -> bool {
    &&& after.len() == before.len()
    &&& drawn_upto(before.len(), before, renderer, after, renderer_after)
}

/// `drawn_upto` speaks of the first `count` entries of `after` only.
pub proof fn lemma_drawn_upto_front<E: Entity>(
    count: nat,
    before: Seq<E>,
    renderer: E::Renderer,
    after: Seq<E>,
    other: Seq<E>,
    renderer_after: E::Renderer,
)
    requires
        drawn_upto(count, before, renderer, after, renderer_after),
        forall|k: int| 0 <= k < count ==> other[k] == after[k],
    ensures
        drawn_upto(count, before, renderer, other, renderer_after),
    decreases count,
{
    if count > 0 {
        let renderer_mid = choose|renderer_mid: E::Renderer|
            {
                &&& drawn_upto(
                    (count - 1) as nat,
                    before,
                    renderer,
                    after,
                    renderer_mid,
                )
                &&& #[trigger] E::drawn(
                    before[count - 1],
                    renderer_mid,
                    after[count - 1],
                    renderer_after,
                )
            };
        lemma_drawn_upto_front((count - 1) as nat, before, renderer, after, other, renderer_mid);
    }
}

/// `thought_upto` speaks of the first `count` entries of `states` and of
/// `after` only.
pub proof fn lemma_thought_upto_front<E: Entity>(
    count: nat,
    before: Seq<E>,
    dt: E::Step,
    input: Input,
    hud: E::Hud,
    born: Seq<E>,
    states: Seq<State>,
    after: Seq<E>,
    other_states: Seq<State>,
    other: Seq<E>,
    hud_after: E::Hud,
    born_after: Seq<E>,
)
    requires
        thought_upto(count, before, dt, input, hud, born, states, after, hud_after, born_after),
        forall|k: int| 0 <= k < count ==> other[k] == after[k],
        forall|k: int| 0 <= k < count ==> other_states[k] == states[k],
    ensures
        thought_upto(
            count,
            before,
            dt,
            input,
            hud,
            born,
            other_states,
            other,
            hud_after,
            born_after,
        ),
    decreases count,
{
    if count > 0 {
        let (hud_mid, born_mid) = choose|hud_mid: E::Hud, born_mid: Seq<E>|
            {
                &&& thought_upto(
                    (count - 1) as nat,
                    before,
                    dt,
                    input,
                    hud,
                    born,
                    states,
                    after,
                    hud_mid,
                    born_mid,
                )
                &&& #[trigger] E::thought(
                    before[count - 1],
                    dt,
                    input,
                    hud_mid,
                    born_mid,
                    states[count - 1],
                    after[count - 1],
                    hud_after,
                    born_after,
                )
            };
        lemma_thought_upto_front(
            (count - 1) as nat,
            before,
            dt,
            input,
            hud,
            born,
            states,
            after,
            other_states,
            other,
            hud_mid,
            born_mid,
        );
    }
}

/// A run of visits leaves the collection as long as it was.
pub proof fn lemma_ran_len<E: Entity>(before: Seq<E>, schedule: Seq<(int, int)>, after: Seq<E>)
    requires
        ran(before, schedule, after),
    ensures
        after.len() == before.len(),
    decreases schedule.len(),
{
    if schedule.len() > 0 {
        let mid = choose|mid: Seq<E>|
            {
                &&& ran(before, schedule.drop_last(), mid)
                &&& #[trigger] met_at(mid, schedule.last().0, schedule.last().1, after)
            };
        lemma_ran_len(before, schedule.drop_last(), mid);
    }
}

/// A run of visits followed by one more visit is a run of the longer
/// schedule.
pub proof fn lemma_ran_push<E: Entity>(
    before: Seq<E>,
    schedule: Seq<(int, int)>,
    mid: Seq<E>,
    i: int,
    j: int,
    after: Seq<E>,
)
    requires
        ran(before, schedule, mid),
        met_at(mid, i, j, after),
    ensures
        ran(before, schedule.push((i, j)), after),
{
    let longer = schedule.push((i, j));
    assert(longer.drop_last() =~= schedule);
    assert(met_at(mid, longer.last().0, longer.last().1, after));
}

/// Two runs of visits, one after the other, are a run of the two schedules
/// joined.
pub proof fn lemma_ran_join<E: Entity>(
    before: Seq<E>,
    first: Seq<(int, int)>,
    mid: Seq<E>,
    second: Seq<(int, int)>,
    after: Seq<E>,
)
    requires
        ran(before, first, mid),
        ran(mid, second, after),
    ensures
        ran(before, first + second, after),
    decreases second.len(),
{
    if second.len() == 0 {
        assert(first + second =~= first);
    } else {
        let link = choose|link: Seq<E>|
            {
                &&& ran(mid, second.drop_last(), link)
                &&& #[trigger] met_at(link, second.last().0, second.last().1, after)
            };
        lemma_ran_join(before, first, mid, second.drop_last(), link);
        let both = first + second;
        assert(both.drop_last() =~= first + second.drop_last());
        assert(met_at(link, both.last().0, both.last().1, after));
    }
}

/// In a think phase every entity of the collection thinks: for each place
/// there is one call of `think`, on the entity that stood there when the
/// phase began, which reported the state listed for that place and left the
/// entity that stands there when the phase ends.
pub proof fn lemma_every_entity_thinks<E: Entity>(
    before: Seq<E>,
    dt: E::Step,
    input: Input,
    hud: E::Hud,
    states: Seq<State>,
    thought: Seq<E>,
    hud_after: E::Hud,
    born: Seq<E>,
    i: int,
)
    requires
        thought_all(before, dt, input, hud, states, thought, hud_after, born),
        0 <= i < before.len(),
    ensures
        exists|hud_then: E::Hud, born_then: Seq<E>, hud_next: E::Hud, born_next: Seq<E>|
            #[trigger] E::thought(
                before[i],
                dt,
                input,
                hud_then,
                born_then,
                states[i],
                thought[i],
                hud_next,
                born_next,
            ),
{
    lemma_thought_upto_holds_each(
        before.len(),
        before,
        dt,
        input,
        hud,
        Seq::empty(),
        states,
        thought,
        hud_after,
        born,
        i,
    );
}

/// Of the calls that `thought_upto` speaks of, the one at place `i`.
proof fn lemma_thought_upto_holds_each<E: Entity>(
    count: nat,
    before: Seq<E>,
    dt: E::Step,
    input: Input,
    hud: E::Hud,
    born: Seq<E>,
    states: Seq<State>,
    after: Seq<E>,
    hud_after: E::Hud,
    born_after: Seq<E>,
    i: int,
)
    requires
        thought_upto(count, before, dt, input, hud, born, states, after, hud_after, born_after),
        0 <= i < count,
    ensures
        exists|hud_then: E::Hud, born_then: Seq<E>, hud_next: E::Hud, born_next: Seq<E>|
            #[trigger] E::thought(
                before[i],
                dt,
                input,
                hud_then,
                born_then,
                states[i],
                after[i],
                hud_next,
                born_next,
            ),
    decreases count,
{
    let (hud_mid, born_mid) = choose|hud_mid: E::Hud, born_mid: Seq<E>|
        {
            &&& thought_upto(
                (count - 1) as nat,
                before,
                dt,
                input,
                hud,
                born,
                states,
                after,
                hud_mid,
                born_mid,
            )
            &&& #[trigger] E::thought(
                before[count - 1],
                dt,
                input,
                hud_mid,
                born_mid,
                states[count - 1],
                after[count - 1],
                hud_after,
                born_after,
            )
        };
    if i == count - 1 {
        assert(E::thought(
            before[i],
            dt,
            input,
            hud_mid,
            born_mid,
            states[i],
            after[i],
            hud_after,
            born_after,
        ));
    } else {
        lemma_thought_upto_holds_each(
            (count - 1) as nat,
            before,
            dt,
            input,
            hud,
            born,
            states,
            after,
            hud_mid,
            born_mid,
            i,
        );
    }
}

/// Every visit of a schedule takes place: for each of its pairs there are
/// two collections, one as the visit found it and one as the visit left it.
pub proof fn lemma_ran_visits<E: Entity>(
    before: Seq<E>,
    schedule: Seq<(int, int)>,
    after: Seq<E>,
    k: int,
)
    requires
        ran(before, schedule, after),
        0 <= k < schedule.len(),
    ensures
        exists|found: Seq<E>, left: Seq<E>| #[trigger]
            met_at(found, schedule[k].0, schedule[k].1, left),
    decreases schedule.len(),
{
    let mid = choose|mid: Seq<E>|
        {
            &&& ran(before, schedule.drop_last(), mid)
            &&& #[trigger] met_at(mid, schedule.last().0, schedule.last().1, after)
        };
    if k == schedule.len() - 1 {
        assert(met_at(mid, schedule[k].0, schedule[k].1, after));
    } else {
        lemma_ran_visits(before, schedule.drop_last(), mid, k);
        assert(schedule.drop_last()[k] == schedule[k]);
    }
}

/// In a collision pass every two entities meet: for each place `i` and each
/// place `j` before it the pass holds a visit to the two.
pub proof fn lemma_every_pair_meets<E: Entity>(before: Seq<E>, after: Seq<E>, i: int, j: int)
    requires
        collided_all(before, after),
        0 <= j < i < before.len(),
    ensures
        exists|found: Seq<E>, left: Seq<E>| #[trigger] met_at(found, i, j, left),
{
    let schedule = pairs(before.len());
    lemma_each_pair_meets_once(before.len());
    assert(schedule.contains((i, j)));
    let k = choose|k: int| 0 <= k < schedule.len() && schedule[k] == (i, j);
    lemma_ran_visits(before, schedule, after, k);
}

/// An entity that reports its death while it thinks takes no further part.
/// The collection that the collision pass of the same tick runs over, which
/// is place by place the collection that the next tick begins with, holds
/// in its front the entities that reported `Alive`, each of them once, and
/// behind them the newly born. No place of it holds an entity that reported
/// `Dead`. `origins` names, for each place of the front, the place at which
/// its entity thought.
pub proof fn lemma_the_dead_take_no_further_part<E: Entity>(
    before: Seq<E>,
    dt: E::Step,
    input: Input,
    hud: E::Hud,
    states: Seq<State>,
    thought: Seq<E>,
    hud_after: E::Hud,
    born: Seq<E>,
    after: Seq<E>,
)
    requires
        before.len() <= usize::MAX,
        thought_all(before, dt, input, hud, states, thought, hud_after, born),
        collided_all(adopted(swept(thought, dead_of(states)), born), after),
    ensures
        ({
            let from = origins(before.len(), dead_of(states));
            let field = adopted(swept(thought, dead_of(states)), born);
            &&& after.len() == field.len()
            &&& field.len() == from.len() + born.len()
            &&& from.no_duplicates()
            &&& forall|p: int|
                0 <= p < from.len() ==> {
                    &&& 0 <= #[trigger] from[p] < before.len()
                    &&& states[from[p]] == State::Alive
                    &&& field[p] == thought[from[p]]
                }
            &&& forall|i: int|
                0 <= i < before.len() && states[i] == State::Alive ==> from.contains(i)
            &&& forall|i: int|
                0 <= i < before.len() && states[i] == State::Dead ==> !from.contains(i)
        }),
{
    let from = origins(before.len(), dead_of(states));
    let kept = swept(thought, dead_of(states));
    let field = adopted(kept, born);
    lemma_sweep_keeps_the_living(thought, states);
    lemma_ran_len(field, pairs(field.len()), after);
    assert forall|p: int| 0 <= p < from.len() implies {
        &&& 0 <= #[trigger] from[p] < before.len()
        &&& states[from[p]] == State::Alive
        &&& field[p] == thought[from[p]]
    } by {
        assert(field[p] == kept[p]);
    }
    assert forall|i: int| 0 <= i < before.len() && states[i] == State::Dead implies !from.contains(
        i,
    ) by {
        if from.contains(i) {
            let p = choose|p: int| 0 <= p < from.len() && from[p] == i;
            assert(states[from[p]] == State::Alive);
        }
    }
}

/// An entity that is born while the others think does not think in that
/// tick: the think phase calls the entities that the tick began with, one
/// call and one reported state for each, and no others. The newly born stand
/// in the collection that the collision pass of that tick runs over, behind
/// the survivors and the last born first, and each of them meets every other
/// entity of that collection. The pass leaves every entity in its place, so
/// the think phase of the next tick calls the newly born with the rest.
pub proof fn lemma_the_newly_born_join_after_thinking<E: Entity>(
    before: Seq<E>,
    dt: E::Step,
    input: Input,
    hud: E::Hud,
    states: Seq<State>,
    thought: Seq<E>,
    hud_after: E::Hud,
    born: Seq<E>,
    after: Seq<E>,
)
    requires
        thought_all(before, dt, input, hud, states, thought, hud_after, born),
        collided_all(adopted(swept(thought, dead_of(states)), born), after),
    ensures
        states.len() == before.len(),
        thought.len() == before.len(),
        ({
            let kept = swept(thought, dead_of(states));
            let field = adopted(kept, born);
            &&& after.len() == field.len()
            &&& field.len() == kept.len() + born.len()
            &&& forall|k: int|
                0 <= k < born.len() ==> #[trigger] field[kept.len() + k] == born[born.len() - 1
                    - k]
            &&& forall|q: int, j: int|
                kept.len() <= q < field.len() && 0 <= j < q ==> pairs(field.len()).contains((q, j))
            &&& forall|q: int, i: int|
                kept.len() <= q < i < field.len() ==> pairs(field.len()).contains((i, q))
        }),
{
    let kept = swept(thought, dead_of(states));
    let field = adopted(kept, born);
    lemma_ran_len(field, pairs(field.len()), after);
    lemma_each_pair_meets_once(field.len());
    assert forall|k: int| 0 <= k < born.len() implies #[trigger] field[kept.len() + k] == born[born.len()
        - 1 - k] by {
        assert(field[kept.len() + k] == born.reverse()[k]);
    }
}

/// Where two entities meet, the resolver is asked once. Where it finds an
/// energy, each of the two is told of the other once, and both are told the
/// same energy; where it finds none, neither is told.
pub proof fn lemma_both_sides_hear_the_same_energy<E: Entity>(
    a: E,
    b: E,
    a_after: E,
    b_after: E,
)
    requires
        met(a, b, a_after, b_after),
    ensures
        exists|energy: Option<E::Energy>, a_mid: E, b_mid: E|
            {
                &&& #[trigger] touched(a, b, energy, a_mid, b_mid)
                &&& energy is None ==> a_after == a_mid && b_after == b_mid
                &&& energy is Some ==> exists|a_told: E, b_told: E|
                    {
                        &&& #[trigger] E::collided(a_mid, b_mid, energy->0, a_told, b_told)
                        &&& E::collided(b_told, a_told, energy->0, b_after, a_after)
                    }
            },
{
    let (energy, a_mid, b_mid) = choose|energy: Option<E::Energy>, a_mid: E, b_mid: E|
        {
            &&& #[trigger] touched(a, b, energy, a_mid, b_mid)
            &&& dispatched(a_mid, b_mid, energy, a_after, b_after)
        };
    assert(touched(a, b, energy, a_mid, b_mid));
}

} // verus!
