//! Strategies for abstract state machine testing: a sequence of transitions
//! is generated against a reference model and shrunk while every step keeps
//! satisfying the model's pre-conditions.

mod host;
mod model;
mod stack;
mod strategy;

pub use host::bits_of;
pub use model::{replays, run, views, AtomicValueTree, ReferenceStateMachine};
pub use stack::{StackMachine, StackTransition};
pub use strategy::{
    ahead, check_sequence, count_open, is_delete, is_transition, lemma_current_replays,
    lemma_delete_round_trip, lemma_last_deletable, lemma_phase_monotone, lemma_phase_order,
    lemma_spent_stays_spent, option_views, phase, select, Generation, Sequential,
    SequentialValueTree, Shrink, TransitionState,
};
