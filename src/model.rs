//! The reference model that a state machine test is generated against, and
//! the shrinkable values that the host framework hands to the library.

use vstd::prelude::*;

verus! {

/// A system under test modelled as an abstract state machine.
///
/// The transitions that may follow depend on the current state: `preconditions`
/// says which transition is valid from which state, and `apply` moves the
/// state on. Both are checked while a sequence is generated and again for each
/// candidate while it is shrunk. Verus knows nothing of a generic `clone`, so
/// a model also says how its values are copied.
pub trait ReferenceStateMachine {
    /// The model's state.
    type State: View;

    /// The model's transition, typically an enum of operations.
    type Transition: View;

    /// Whether `transition` may be taken from `state`.
    spec fn allows(
        state: <Self::State as View>::V,
        transition: <Self::Transition as View>::V,
    ) -> bool;

    /// The state that `transition` leads to from `state`.
    spec fn step(
        state: <Self::State as View>::V,
        transition: <Self::Transition as View>::V,
    ) -> <Self::State as View>::V;

    /// Checks the pre-conditions of `transition` in `state`.
    fn preconditions(state: &Self::State, transition: &Self::Transition) -> (r: bool)
        ensures
            r == Self::allows(state@, transition@),
    ;

    /// Applies `transition` to `state`.
    fn apply(state: Self::State, transition: &Self::Transition) -> (r: Self::State)
        ensures
            r@ == Self::step(state@, transition@),
    ;

    /// A copy of `state`.
    fn clone_state(state: &Self::State) -> (r: Self::State)
        ensures
            r@ == state@,
    ;

    /// A copy of `transition`.
    fn clone_transition(transition: &Self::Transition) -> (r: Self::Transition)
        ensures
            r@ == transition@,
    ;
}

/// The state reached from `start` by taking `transitions` in order.
pub open spec fn run<M: ReferenceStateMachine>(
    start: <M::State as View>::V,
    transitions: Seq<<M::Transition as View>::V>,
) -> <M::State as View>::V
    decreases transitions.len(),
{
    if transitions.len() == 0 {
        start
    } else {
        M::step(run::<M>(start, transitions.drop_last()), transitions.last())
    }
}

/// Whether every transition of `transitions`, taken in order from `start`,
/// satisfies the pre-conditions in the state that the ones before it reach.
pub open spec fn replays<M: ReferenceStateMachine>(
    start: <M::State as View>::V,
    transitions: Seq<<M::Transition as View>::V>,
) -> bool
    decreases transitions.len(),
{
    if transitions.len() == 0 {
        true
    } else {
        replays::<M>(start, transitions.drop_last()) && M::allows(
            run::<M>(start, transitions.drop_last()),
            transitions.last(),
        )
    }
}

/// The views of a sequence of values.
pub open spec fn views<T: View>(values: Seq<T>) -> Seq<T::V> {
    values.map_values(|v: T| v@)
}

/// A shrinkable value of the host framework: a current value that can be
/// made simpler, and a simplification that can be partly undone.
///
/// Nothing is assumed of what an implementation returns: every candidate that
/// the library takes from one is checked against the model before it is kept.
pub trait AtomicValueTree<T> {
    /// The value that the tree currently stands for.
    fn current(&self) -> T;

    /// Moves towards a simpler value; false when there is none.
    fn simplify(&mut self) -> bool;

    /// Undoes part of the last simplification; false when that is not possible.
    fn complicate(&mut self) -> bool;
}

} // verus!
