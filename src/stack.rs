//! A reference model of a stack of integers: popping needs a non-empty
//! stack, unless the transition says that the stack is empty.

use crate::model::ReferenceStateMachine;
use vstd::prelude::*;

verus! {

/// The stack model.
pub struct StackMachine;

/// A transition of the stack model.
#[derive(Clone, Copy, Debug, PartialEq, Eq, Structural)]
pub enum StackTransition {
    /// Pops from a stack that is not empty.
    PopNonEmpty,
    /// Pops from a stack that is empty.
    PopEmpty,
    /// Pushes a value.
    Push(i32),
}

impl View for StackTransition {
    type V = StackTransition;

    open spec fn view(&self) -> StackTransition {
        *self
    }
}

impl ReferenceStateMachine for StackMachine {
    type State = Vec<i32>;

    type Transition = StackTransition;

    open spec fn allows(state: Seq<i32>, transition: StackTransition) -> bool {
        match transition {
            StackTransition::PopEmpty => state.len() == 0,
            StackTransition::PopNonEmpty => state.len() > 0,
            StackTransition::Push(_) => true,
        }
    }

    open spec fn step(state: Seq<i32>, transition: StackTransition) -> Seq<i32> {
        match transition {
            StackTransition::Push(v) => state.push(v),
            _ => if state.len() > 0 {
                state.drop_last()
            } else {
                state
            },
        }
    }

    fn preconditions(state: &Vec<i32>, transition: &StackTransition) -> (r: bool) {
        match transition {
            StackTransition::PopEmpty => state.len() == 0,
            StackTransition::PopNonEmpty => state.len() > 0,
            StackTransition::Push(_) => true,
        }
    }

    fn apply(state: Vec<i32>, transition: &StackTransition) -> (r: Vec<i32>) {
        let mut state = state;
        match transition {
            StackTransition::Push(v) => {
                state.push(*v);
            },
            _ => {
                state.pop();
            },
        }
        state
    }

    fn clone_state(state: &Vec<i32>) -> (r: Vec<i32>) {
        let r = state.clone();
        proof {
            assert(r@ =~= state@);
        }
        r
    }

    fn clone_transition(transition: &StackTransition) -> (r: StackTransition) {
        *transition
    }
}

} // verus!
