//! The engine that owns the entities and runs a tick.

use crate::entity::{Entity, State};
use crate::input::Input;
use crate::lifecycle::{adopt, dead_of, lemma_dead_of, pairs, row, sweep};
use crate::tick::{
    collided_all, drawn_all, drawn_upto, lemma_drawn_upto_front, lemma_ran_join, lemma_ran_len,
    lemma_ran_push, lemma_thought_upto_front, met_at, ran, thought_all, thought_upto, ticked,
    touched,
};
use vstd::prelude::*;

verus! {

/// Lets two entities touch: where both have a body, the bodies are resolved,
/// and the energy of the impact is returned. Where one of them has none,
/// nothing is resolved and there is no energy.
pub fn collide<E: Entity>(a: &mut E, b: &mut E) -> (energy: Option<E::Energy>)
    ensures
        touched(*old(a), *old(b), energy, *final(a), *final(b)),
{
    match (a.body(), b.body()) {
        (Some(i), Some(j)) => E::resolve(i, j),
        _ => None,
    }
}

/// The entities of a simulation, and the two lists that a tick fills and
/// empties again: the newly born, and the places of those that died.
pub struct Engine<E: Entity> {
    entities: Vec<E>,
    born: Vec<E>,
    dead: Vec<usize>,
}

impl<E: Entity> View for Engine<E> {
    type V = Seq<E>;

    /// The entities, in the order in which the engine holds them.
    closed spec fn view(&self) -> Seq<E> {
        self.entities@
    }
}

impl<E: Entity> Engine<E> {
    /// Between two ticks the two lists of a tick are empty.
    pub closed spec fn wf(&self) -> bool {
        &&& self.born@.len() == 0
        &&& self.dead@.len() == 0
    }

    /// An engine without entities.
    pub fn new() -> (engine: Engine<E>)
        ensures
            engine.wf(),
            engine@ == Seq::<E>::empty(),
    {
        Engine { entities: Vec::new(), born: Vec::new(), dead: Vec::new() }
    }

    /// Takes `entity` in, behind the others.
    pub fn add(&mut self, entity: E)
        requires
            old(self).wf(),
        ensures
            final(self).wf(),
            final(self)@ == old(self)@.push(entity),
    {
        self.entities.push(entity);
    }

    /// Draws every entity once, in the order of the collection.
    pub fn draw(&mut self, renderer: &mut E::Renderer)
        requires
            old(self).wf(),
        ensures
            final(self).wf(),
            drawn_all(old(self)@, *old(renderer), final(self)@, *final(renderer)),
    {
        let ghost before = self.entities@;
        let ghost clean = *renderer;
        let len = self.entities.len();
        let mut i: usize = 0;
        while i < len
            invariant
                i <= len,
                len == before.len(),
                self.entities@.len() == len,
                self.born@ == old(self).born@,
                self.dead@ == old(self).dead@,
                forall|k: int| i <= k < len ==> self.entities@[k] == before[k],
                drawn_upto(i as nat, before, clean, self.entities@, *renderer),
            decreases len - i,
        {
            let ghost held = self.entities@;
            let ghost used = *renderer;
            self.entities[i].draw(renderer);
            proof {
                lemma_drawn_upto_front(i as nat, before, clean, held, self.entities@, used);
                let count = (i + 1) as nat;
                assert(E::drawn(
                    before[count - 1],
                    used,
                    self.entities@[count - 1],
                    *renderer,
                ));
            }
            i = i + 1;
        }
    }

    /// Lets the entity at `i` meet every entity that stands before it, in
    /// their order. The two are reached through two parts of the collection
    /// that share no place.
    fn collide_one(&mut self, i: usize)
        requires
            i < old(self).entities@.len(),
        ensures
            final(self).born@ == old(self).born@,
            final(self).dead@ == old(self).dead@,
            ran(old(self).entities@, row(i as int, i as int), final(self).entities@),
    {
        let ghost before = self.entities@;
        let ghost tail = before.skip(i as int);
        let (todo, rest) = self.entities.split_at_mut(i);
        let this = &mut rest[0];
        let mut j: usize = 0;
        assert(todo@ + tail.update(0, *this) =~= before);
        while j < i
            invariant
                j <= i,
                i < before.len(),
                todo@.len() == i,
                tail == before.skip(i as int),
                ran(before, row(i as int, j as int), todo@ + tail.update(0, *this)),
            decreases i - j,
        {
            let ghost held = todo@ + tail.update(0, *this);
            let other = &mut todo[j];
            match collide(this, other) {
                Some(energy) => {
                    this.collide(other, energy);
                    other.collide(this, energy);
                },
                None => {},
            }
            proof {
                let now = todo@ + tail.update(0, *this);
                assert(met_at(held, i as int, j as int, now));
                lemma_ran_push(before, row(i as int, j as int), held, i as int, j as int, now);
                assert(row(i as int, j as int).push((i as int, j as int)) =~= row(
                    i as int,
                    j + 1,
                ));
            }
            j = j + 1;
        }
    }

    /// The collision pass: every entity meets every entity that stands before
    /// it, once.
    fn collide_all(&mut self)
        ensures
            final(self).born@ == old(self).born@,
            final(self).dead@ == old(self).dead@,
            collided_all(old(self).entities@, final(self).entities@),
    {
        let ghost before = self.entities@;
        let len = self.entities.len();
        let mut i: usize = 0;
        while i < len
            invariant
                i <= len,
                len == before.len(),
                self.entities@.len() == len,
                self.born@ == old(self).born@,
                self.dead@ == old(self).dead@,
                ran(before, pairs(i as nat), self.entities@),
            decreases len - i,
        {
            let ghost held = self.entities@;
            self.collide_one(i);
            proof {
                lemma_ran_len(held, row(i as int, i as int), self.entities@);
                lemma_ran_join(
                    before,
                    pairs(i as nat),
                    held,
                    row(i as int, i as int),
                    self.entities@,
                );
                assert(pairs((i + 1) as nat) == pairs(i as nat) + row(i as int, i as int));
            }
            i = i + 1;
        }
    }

    /// Runs one tick. Every entity thinks once, in the order of the
    /// collection; the entities that reported their death are swept out; the
    /// newly born are taken in; then every entity meets every entity that
    /// stands before it.
    pub fn think(&mut self, dt: E::Step, input: &Input, hud: &mut E::Hud)
        requires
            old(self).wf(),
        ensures
            final(self).wf(),
            ticked(old(self)@, dt, *input, *old(hud), final(self)@, *final(hud)),
    {
        let ghost before = self.entities@;
        let ghost clean = *hud;
        let ghost mut states = Seq::<State>::empty();
        let len = self.entities.len();
        let mut i: usize = 0;
        assert(self.born@ =~= Seq::empty());
        assert(self.dead@ =~= dead_of(states));
        while i < len
            invariant
                i <= len,
                len == before.len(),
                self.entities@.len() == len,
                states.len() == i,
                self.dead@ == dead_of(states),
                forall|k: int| i <= k < len ==> self.entities@[k] == before[k],
                thought_upto(
                    i as nat,
                    before,
                    dt,
                    *input,
                    clean,
                    Seq::empty(),
                    states,
                    self.entities@,
                    *hud,
                    self.born@,
                ),
            decreases len - i,
        {
            let ghost held = self.entities@;
            let ghost used = *hud;
            let ghost waiting = self.born@;
            let ghost reported = states;
            let state = self.entities[i].think(dt, input, hud, &mut self.born);
            if state == State::Dead {
                self.dead.push(i);
            }
            proof {
                states = reported.push(state);
                assert(states.drop_last() =~= reported);
                lemma_thought_upto_front(
                    i as nat,
                    before,
                    dt,
                    *input,
                    clean,
                    Seq::empty(),
                    reported,
                    held,
                    states,
                    self.entities@,
                    used,
                    waiting,
                );
                let count = (i + 1) as nat;
                assert(E::thought(
                    before[count - 1],
                    dt,
                    *input,
                    used,
                    waiting,
                    states[count - 1],
                    self.entities@[count - 1],
                    *hud,
                    self.born@,
                ));
            }
            i = i + 1;
        }
        let ghost thought = self.entities@;
        let ghost born = self.born@;
        proof {
            lemma_dead_of(states);
            assert(thought_all(before, dt, *input, clean, states, thought, *hud, born));
        }
        sweep(&mut self.entities, &mut self.dead);
        adopt(&mut self.entities, &mut self.born);
        self.collide_all();
    }
}

} // verus!
