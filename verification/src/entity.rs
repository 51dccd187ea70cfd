//! What an object must offer to take part in the simulation.

use crate::input::Input;
use vstd::prelude::*;

verus! {

/// Whether an entity goes on living after a tick.
#[derive(Copy, Clone, PartialEq, Eq, Structural, Debug)]
pub enum State {
    Alive,
    Dead,
}

/// A simulated object.
///
/// The engine knows nothing of what an entity does when it is called. Each
/// method therefore comes with a relation between the values before and after
/// the call. The implementation chooses what the relation says, and the
/// contracts of the engine are stated over these relations. An implementation
/// that publishes nothing keeps the default, which holds of every call.
pub trait Entity: Sized {
    /// The time that passes in one tick.
    type Step: Copy;

    /// The gauges that an entity may set while it thinks.
    type Hud;

    /// What an entity draws itself on.
    type Renderer;

    /// The physical presence of an entity.
    type Body;

    /// The energy of an impact, and the unit of damage.
    type Energy: Copy;

    /// One call of `draw`: the entity and the renderer, before and after.
    open spec fn drawn(
        before: Self,
        renderer: Self::Renderer,
        after: Self,
        renderer_after: Self::Renderer,
    ) -> bool {
        true
    }

    /// One call of `think`: the entity, the gauges and the list of the newly
    /// born, before and after, and the state that the call reported.
    open spec fn thought(
        before: Self,
        dt: Self::Step,
        input: Input,
        hud: Self::Hud,
        born: Seq<Self>,
        state: State,
        after: Self,
        hud_after: Self::Hud,
        born_after: Seq<Self>,
    ) -> bool {
        true
    }

    /// One call of `collide`: this entity and the other one, before and after.
    open spec fn collided(
        before: Self,
        other: Self,
        energy: Self::Energy,
        after: Self,
        other_after: Self,
    ) -> bool {
        true
    }

    /// One call of `body`: the entity before the call, the body that it lent
    /// out as the caller found it and as the caller left it (`None` twice
    /// where the entity has no body), and the entity after the loan.
    open spec fn embodied(
        before: Self,
        body: Option<Self::Body>,
        body_after: Option<Self::Body>,
        after: Self,
    ) -> bool {
        true
    }

    /// One call of `resolve`: the two bodies before and after, and the energy
    /// of the impact, `None` where the bodies do not touch.
    open spec fn resolved(
        a: Self::Body,
        b: Self::Body,
        energy: Option<Self::Energy>,
        a_after: Self::Body,
        b_after: Self::Body,
    ) -> bool {
        true
    }

    /// Draws the entity.
    fn draw(&mut self, renderer: &mut Self::Renderer)
        ensures
            Self::drawn(*old(self), *old(renderer), *final(self), *final(renderer)),
    ;

    /// Advances the entity by `dt`. The entity may read the keys, set the
    /// gauges and push new entities onto `born`. It reports whether it lives
    /// on.
    fn think(
        &mut self,
        dt: Self::Step,
        input: &Input,
        hud: &mut Self::Hud,
        born: &mut Vec<Self>,
    ) -> (state: State)
        ensures
            Self::thought(
                *old(self),
                dt,
                *input,
                *old(hud),
                old(born)@,
                state,
                *final(self),
                *final(hud),
                final(born)@,
            ),
    ;

    /// Tells the entity that it overlaps `other`, and with what energy the
    /// two met.
    fn collide(&mut self, other: &mut Self, energy: Self::Energy)
        ensures
            Self::collided(*old(self), *old(other), energy, *final(self), *final(other)),
    ;

    /// Takes `amount` of damage. An entity without health keeps the default,
    /// which changes nothing.
    fn take_damage(&mut self, amount: Self::Energy)
        default_ensures
            *final(self) == *old(self),
    {
    }

    /// Lends out the body of the entity, if it has one.
    fn body(&mut self) -> (body: Option<&mut Self::Body>)
        ensures
            match body {
                Some(b) => Self::embodied(*old(self), Some(*b), Some(*final(b)), *final(self)),
                None => Self::embodied(*old(self), None, None, *final(self)),
            },
    ;

    /// Finds out whether two bodies overlap. If they do, it parts them and
    /// returns the energy of the impact.
    fn resolve(a: &mut Self::Body, b: &mut Self::Body) -> (energy: Option<Self::Energy>)
        ensures
            Self::resolved(*old(a), *old(b), energy, *final(a), *final(b)),
    ;
}

} // verus!
