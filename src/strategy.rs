//! The sequential strategy: generation of an acceptable sequence of
//! transitions, and its shrinking.

use crate::host::bit_clear;
use crate::host::bit_count;
use crate::host::bit_set;
use crate::host::bit_test;
use crate::host::bits_of;
use crate::host::reject_local;
use crate::host::sample_size;
use crate::model::replays;
use crate::model::run;
use crate::model::views;
use crate::model::AtomicValueTree;
use crate::model::ReferenceStateMachine;
use proptest::bits::VarBitSet;
use proptest::test_runner::Reason;
use proptest::test_runner::TestRunner;
use vstd::prelude::*;
use vstd::set_lib::set_int_range;

verus! {

/// A shrinking operation.
#[derive(Clone, Copy, Debug, PartialEq, Eq, Structural)]
pub enum Shrink {
    /// Shrink the initial state.
    InitialState,
    /// Delete the transition at the given index.
    DeleteTransition(usize),
    /// Shrink the transition at the given index.
    Transition(usize),
}

/// How far a plan has come: deletions, then transitions, then the initial state.
pub open spec fn phase(s: Shrink) -> nat {
    match s {
        Shrink::DeleteTransition(_) => 0,
        Shrink::Transition(_) => 1,
        Shrink::InitialState => 2,
    }
}

/// How far position `j` lies ahead of position `ix`, going round after `n`.
pub open spec fn ahead(j: int, ix: int, n: int) -> int {
    if j >= ix {
        j - ix
    } else {
        j - ix + n
    }
}

/// The views of a sequence of optional values.
pub open spec fn option_views<T: View>(values: Seq<Option<T>>) -> Seq<Option<T::V>> {
    values.map_values(
        |o: Option<T>|
            match o {
                Some(t) => Some(t@),
                None => None,
            },
    )
}

/// Whether `op` is a deletion.
pub open spec fn is_delete(op: Option<Shrink>) -> bool {
    match op {
        Some(Shrink::DeleteTransition(_)) => true,
        _ => false,
    }
}

/// Whether `op` is the simplification of a transition.
pub open spec fn is_transition(op: Option<Shrink>) -> bool {
    match op {
        Some(Shrink::Transition(_)) => true,
        _ => false,
    }
}

/// The state of a transition in the sequence.
#[derive(Clone, Copy, Debug, PartialEq, Eq, Structural)]
pub enum TransitionState {
    /// The transition was taken from its tree and satisfies the pre-conditions.
    Accepted,
    /// The transition was simplified, but the simpler one was rejected.
    SimplifyRejected,
    /// The transition was complicated, but the more complex one was rejected.
    ComplicateRejected,
}

/// The values of `values` at the indices that `keep` holds, in order.
pub open spec fn select<X>(values: Seq<X>, keep: Set<int>) -> Seq<X>
    decreases values.len(),
{
    if values.len() == 0 {
        Seq::empty()
    } else {
        let rest = select(values.drop_last(), keep);
        if keep.contains(values.len() - 1) {
            rest.push(values.last())
        } else {
            rest
        }
    }
}

/// The number of slots whose simplification has not been rejected.
pub open spec fn count_open(statuses: Seq<TransitionState>) -> nat
    decreases statuses.len(),
{
    if statuses.len() == 0 {
        0
    } else {
        count_open(statuses.drop_last()) + if statuses.last() == TransitionState::SimplifyRejected {
            0nat
        } else {
            1nat
        }
    }
}

/// Dropping one kept index shortens the selection by one.
proof fn lemma_select_remove<X>(values: Seq<X>, keep: Set<int>, ix: int)
    requires
        0 <= ix < values.len(),
        keep.contains(ix),
    ensures
        select(values, keep.remove(ix)).len() + 1 == select(values, keep).len(),
    decreases values.len(),
{
    if ix < values.len() - 1 {
        lemma_select_remove(values.drop_last(), keep, ix);
    } else {
        lemma_select_same(values.drop_last(), keep, keep.remove(ix));
    }
}

/// Selections by two sets that agree below the length are equal.
proof fn lemma_select_same<X>(values: Seq<X>, a: Set<int>, b: Set<int>)
    requires
        forall|i: int| 0 <= i < values.len() ==> (a.contains(i) <==> b.contains(i)),
    ensures
        select(values, a) == select(values, b),
    decreases values.len(),
{
    if values.len() > 0 {
        lemma_select_same(values.drop_last(), a, b);
    }
}

/// Rejecting the simplification of an open slot closes it.
proof fn lemma_count_open_close(statuses: Seq<TransitionState>, ix: int)
    requires
        0 <= ix < statuses.len(),
        statuses[ix] != TransitionState::SimplifyRejected,
    ensures
        count_open(statuses.update(ix, TransitionState::SimplifyRejected)) + 1 == count_open(
            statuses,
        ),
    decreases statuses.len(),
{
    let u = statuses.update(ix, TransitionState::SimplifyRejected);
    if ix < statuses.len() - 1 {
        assert(u.drop_last() =~= statuses.drop_last().update(ix, TransitionState::SimplifyRejected));
        lemma_count_open_close(statuses.drop_last(), ix);
    } else {
        assert(u.drop_last() =~= statuses.drop_last());
    }
}

/// Every prefix of a sequence that replays also replays.
proof fn lemma_replays_prefix<M: ReferenceStateMachine>(
    start: <M::State as View>::V,
    transitions: Seq<<M::Transition as View>::V>,
    k: int,
)
    requires
        replays::<M>(start, transitions),
        0 <= k <= transitions.len(),
    ensures
        replays::<M>(start, transitions.take(k)),
    decreases transitions.len(),
{
    if k < transitions.len() {
        assert(transitions.drop_last().take(k) =~= transitions.take(k));
        lemma_replays_prefix::<M>(start, transitions.drop_last(), k);
    } else {
        assert(transitions.take(k) =~= transitions);
    }
}

/// Checks that `transitions`, taken in order from `start`, satisfy the
/// pre-conditions at every step.
pub fn check_sequence<M: ReferenceStateMachine>(
    start: &M::State,
    transitions: &Vec<M::Transition>,
) -> (r: bool)
    ensures
        r == replays::<M>(start@, views(transitions@)),
{
    let ghost all = views(transitions@);
    let mut state = M::clone_state(start);
    let mut i: usize = 0;
    while i < transitions.len()
        invariant
            i <= transitions.len(),
            all == views(transitions@),
            state@ == run::<M>(start@, all.take(i as int)),
            replays::<M>(start@, all.take(i as int)),
        decreases transitions.len() - i,
    {
        proof {
            assert(all.take(i + 1).drop_last() =~= all.take(i as int));
        }
        if !M::preconditions(&state, &transitions[i]) {
            proof {
                if replays::<M>(start@, all) {
                    lemma_replays_prefix::<M>(start@, all, i + 1);
                }
            }
            return false;
        }
        state = M::apply(state, &transitions[i]);
        i = i + 1;
    }
    proof {
        assert(all.take(i as int) =~= all);
    }
    true
}

/// The generated value tree of a sequential state machine strategy: an
/// initial state and a sequence of transitions, with everything needed to
/// shrink them.
pub struct SequentialValueTree<M: ReferenceStateMachine, StateTree, TransitionTree> {
    /// The tree of initial states.
    initial_state: StateTree,
    /// Can the initial state be shrunk any further?
    is_initial_state_shrinkable: bool,
    /// The last initial state that was accepted with the included transitions.
    last_valid_initial_state: M::State,
    /// The trees of the transitions, one for each generated position.
    transitions: Vec<TransitionTree>,
    /// For each position, its shrinking state and its last accepted value.
    acceptable_transitions: Vec<(TransitionState, M::Transition)>,
    /// The positions that have not been deleted.
    included_transitions: VarBitSet,
    /// The positions that may still be simplified.
    shrinkable_transitions: VarBitSet,
    /// The next shrink operation to apply.
    shrink: Shrink,
    /// The last applied shrink operation, if any.
    last_shrink: Option<Shrink>,
}

impl<
    M: ReferenceStateMachine,
    ST: AtomicValueTree<M::State>,
    TT: AtomicValueTree<M::Transition>,
> SequentialValueTree<M, ST, TT> {
    /// The number of generated positions.
    pub closed spec fn len(self) -> nat {
        self.transitions@.len()
    }

    /// The current initial state.
    pub closed spec fn initial_view(self) -> <M::State as View>::V {
        self.last_valid_initial_state@
    }

    /// The last accepted transition at each position.
    pub closed spec fn accepted(self) -> Seq<<M::Transition as View>::V> {
        self.acceptable_transitions@.map_values(|p: (TransitionState, M::Transition)| p.1@)
    }

    /// The shrinking state of each position.
    pub closed spec fn statuses(self) -> Seq<TransitionState> {
        self.acceptable_transitions@.map_values(|p: (TransitionState, M::Transition)| p.0)
    }

    /// The positions that are still in the sequence.
    pub closed spec fn included(self) -> Set<int> {
        bits_of(self.included_transitions)
    }

    /// The positions that may still be simplified.
    pub closed spec fn shrinkable(self) -> Set<int> {
        bits_of(self.shrinkable_transitions)
    }

    /// The next planned shrink operation.
    pub closed spec fn plan(self) -> Shrink {
        self.shrink
    }

    /// The shrink operation that was applied last, if it can still be undone.
    pub closed spec fn last_op(self) -> Option<Shrink> {
        self.last_shrink
    }

    /// Whether the initial state may still be shrunk.
    pub closed spec fn initial_shrinkable(self) -> bool {
        self.is_initial_state_shrinkable
    }

    /// The current sequence: the accepted transitions of the included positions.
    pub open spec fn current_transitions(self) -> Seq<<M::Transition as View>::V> {
        select(self.accepted(), self.included())
    }

    /// The sequence that results when position `ix` takes `t` instead.
    pub open spec fn candidate(self, ix: int, t: <M::Transition as View>::V) -> Seq<
        <M::Transition as View>::V,
    > {
        select(self.accepted().update(ix, t), self.included())
    }

    /// The number of positions whose simplification has not been rejected.
    pub open spec fn open_count(self) -> nat {
        count_open(self.statuses())
    }

    /// How many deletions the plan may still try.
    pub open spec fn deletes_left(self) -> nat {
        match self.plan() {
            Shrink::DeleteTransition(i) => i as nat + 1,
            _ => 0,
        }
    }

    /// One shrinking state and accepted transition for each tree.
    pub closed spec fn shaped(self) -> bool {
        self.acceptable_transitions@.len() == self.transitions@.len()
    }

    /// The tree is well formed: its bookkeeping is consistent and the current
    /// sequence satisfies the pre-conditions from the current initial state.
    pub closed spec fn wf(self) -> bool {
        let n = self.len() as int;
        &&& self.shaped()
        &&& self.included().finite()
        &&& self.shrinkable().finite()
        &&& forall|i: int| #[trigger] self.included().contains(i) ==> 0 <= i < n
        &&& forall|i: int| #[trigger]
            self.shrinkable().contains(i) ==> self.included().contains(i)
                && self.statuses()[i] != TransitionState::SimplifyRejected
        &&& forall|i: int|
            0 <= i < n && !#[trigger] self.included().contains(i) ==> self.statuses()[i]
                == TransitionState::Accepted
        &&& match self.shrink {
            Shrink::DeleteTransition(d) => {
                &&& d < n
                &&& forall|i: int| 0 <= i <= d ==> #[trigger] self.included().contains(i)
                &&& forall|i: int| 0 <= i < n ==> #[trigger] self.statuses()[i]
                    == TransitionState::Accepted
                &&& !is_transition(self.last_shrink)
            },
            Shrink::Transition(t) => t < n || n == 0,
            Shrink::InitialState => true,
        }
        &&& match self.last_shrink {
            Some(Shrink::DeleteTransition(d)) => d < n && !self.included().contains(d as int),
            Some(Shrink::Transition(t)) => t < n && self.included().contains(t as int),
            _ => true,
        }
        &&& self.last_shrink matches Some(Shrink::DeleteTransition(d)) ==> replays::<M>(
            self.initial_view(),
            select(self.accepted(), self.included().insert(d as int)),
        )
        &&& replays::<M>(self.initial_view(), self.current_transitions())
    }

    /// `next` is `self` with the included position `ix` deleted.
    pub open spec fn deletes(self, next: Self, ix: int) -> bool {
        &&& self.included().contains(ix)
        &&& next.included() == self.included().remove(ix)
        &&& next.accepted() == self.accepted()
        &&& next.initial_view() == self.initial_view()
        &&& next.len() == self.len()
    }

    /// `next` is `self` with the deleted position `ix` included again.
    pub open spec fn restores(self, next: Self, ix: int) -> bool {
        &&& !self.included().contains(ix)
        &&& next.included() == self.included().insert(ix)
        &&& next.accepted() == self.accepted()
        &&& next.initial_view() == self.initial_view()
        &&& next.len() == self.len()
    }

    /// Nothing is left to shrink: the initial state is spent, and every
    /// included transition has had a simplification or a complication rejected.
    pub open spec fn spent(self) -> bool {
        &&& !self.initial_shrinkable()
        &&& forall|i: int|
            0 <= i < self.len() && #[trigger] self.included().contains(i) ==> self.statuses()[i]
                != TransitionState::Accepted
    }

    /// A spent tree whose last shrink was no simplification of a transition
    /// is left as it is, and `simplify` reports that nothing was shrunk.
    pub open spec fn settles(self, next: Self, r: bool) -> bool {
        self.spent() && !is_transition(self.last_op()) ==> !r && next == self
    }

    /// Whether the sequence stays acceptable without the position `k`.
    pub open spec fn deletable(self, k: int) -> bool {
        replays::<M>(self.initial_view(), select(self.accepted(), self.included().remove(k)))
    }

    /// What holds after the recovery probe on `self` left `next` and returned
    /// `r`: on success one included position took a new transition and is
    /// accepted again; otherwise nothing changed.
    pub open spec fn probed(self, next: Self, r: bool) -> bool {
        &&& next.wf()
        &&& next.len() == self.len()
        &&& next.included() == self.included()
        &&& next.initial_view() == self.initial_view()
        &&& next.plan() == self.plan()
        &&& next.last_op() == self.last_op()
        &&& next.shrinkable() == self.shrinkable()
        &&& next.initial_shrinkable() == self.initial_shrinkable()
        &&& r ==> exists|j: int|
            0 <= j < self.len() && #[trigger] self.included().contains(j) && next.accepted()
                == self.accepted().update(j, next.accepted()[j]) && next.statuses()
                == self.statuses().update(j, TransitionState::Accepted)
        &&& !r ==> next.accepted() == self.accepted() && next.statuses() == self.statuses()
    }

    /// What holds after a call of `simplify` on `self` that left `next` and
    /// returned `r`.
    pub open spec fn simplified(self, next: Self, r: bool) -> bool {
        &&& next.wf()
        &&& next.len() == self.len()
        &&& phase(self.plan()) <= phase(next.plan())
        &&& !r ==> {
            &&& next.initial_view() == self.initial_view()
            &&& next.included() == self.included()
            &&& next.accepted() == self.accepted()
        }
        &&& match self.plan() {
            Shrink::DeleteTransition(d) => (exists|k: int| 0 <= k <= d && #[trigger] self.deletable(k))
                ==> r && is_delete(next.last_op()),
            _ => true,
        }
        &&& r ==> match next.last_op() {
            Some(Shrink::DeleteTransition(i)) => {
                &&& self.deletes(next, i as int)
                &&& !next.shrinkable().contains(i as int)
                &&& next.plan() == if i == 0 {
                    Shrink::Transition(0)
                } else {
                    Shrink::DeleteTransition((i - 1) as usize)
                }
                &&& match self.plan() {
                    Shrink::DeleteTransition(d) => {
                        &&& i <= d
                        &&& forall|k: int| i < k <= d ==> !#[trigger] self.deletable(k)
                    },
                    _ => false,
                }
            },
            Some(Shrink::Transition(_)) => {
                &&& !(next.plan() is DeleteTransition)
                &&& next.included() == self.included()
                &&& next.initial_view() == self.initial_view()
                &&& self.plan() == Shrink::InitialState ==> self.spent()
                &&& exists|j: int|
                    0 <= j < self.len() && #[trigger] self.included().contains(j)
                        && next.accepted() == self.accepted().update(j, next.accepted()[j])
                        && next.statuses()[j] == TransitionState::Accepted
            },
            Some(Shrink::InitialState) => {
                &&& next.plan() == Shrink::InitialState
                &&& next.included() == self.included()
                &&& next.accepted() == self.accepted()
            },
            None => false,
        }
    }

    /// What holds after a call of `complicate` on `self` that left `next` and
    /// returned `r`.
    pub open spec fn complicated(self, next: Self, r: bool) -> bool {
        &&& next.wf()
        &&& next.len() == self.len()
        &&& next.plan() == self.plan()
        &&& r ==> self.last_op() is Some
        &&& match self.last_op() {
            None => !r && next == self,
            Some(Shrink::DeleteTransition(i)) => {
                &&& r
                &&& self.restores(next, i as int)
                &&& next.last_op() is None
            },
            Some(Shrink::Transition(i)) => {
                &&& next.included() == self.included()
                &&& next.initial_view() == self.initial_view()
                &&& next.accepted() == self.accepted().update(
                    i as int,
                    next.accepted()[i as int],
                )
                &&& r ==> next.last_op() == self.last_op()
                    && next.statuses() == self.statuses().update(
                    i as int,
                    TransitionState::Accepted,
                )
                &&& !r ==> next.last_op() is None && next.accepted()
                    == self.accepted() && (next.statuses() == self.statuses()
                    || next.statuses() == self.statuses().update(
                    i as int,
                    TransitionState::ComplicateRejected,
                ))
            },
            Some(Shrink::InitialState) => {
                &&& next.included() == self.included()
                &&& next.accepted() == self.accepted()
                &&& next.last_op() is None
                &&& !r ==> next.initial_view() == self.initial_view()
            },
        }
    }

    /// What holds after a step of a run: a call of `simplify` when
    /// `simplifying`, else a call of `complicate`.
    pub open spec fn stepped(self, next: Self, r: bool, simplifying: bool) -> bool {
        if simplifying {
            self.simplified(next, r)
        } else {
            self.complicated(next, r)
        }
    }

    /// The included transitions, in order. Where `substitute` names a position,
    /// that position contributes the given transition instead of its accepted one.
    fn get_included_acceptable_transitions(
        &self,
        substitute: Option<(usize, &M::Transition)>,
    ) -> (r: Vec<M::Transition>)
        requires
            self.shaped(),
            match substitute {
                Some((ix, _)) => ix < self.len(),
                None => true,
            },
        ensures
            views(r@) == match substitute {
                Some((ix, t)) => self.candidate(ix as int, t@),
                None => self.current_transitions(),
            },
    {
        let ghost values = match substitute {
            Some((ix, t)) => self.accepted().update(ix as int, t@),
            None => self.accepted(),
        };
        let mut r: Vec<M::Transition> = Vec::new();
        let mut i: usize = 0;
        while i < self.acceptable_transitions.len()
            invariant
                self.shaped(),
                i <= self.len(),
                match substitute {
                    Some((ix, _)) => ix < self.len(),
                    None => true,
                },
                values.len() == self.len(),
                values == match substitute {
                    Some((ix, t)) => self.accepted().update(ix as int, t@),
                    None => self.accepted(),
                },
                views(r@) == select(values.take(i as int), self.included()),
            decreases self.len() - i,
        {
            proof {
                assert(values.take(i + 1).drop_last() =~= values.take(i as int));
            }
            if bit_test(&self.included_transitions, i) {
                let t = match substitute {
                    Some((ix, candidate)) => {
                        if ix == i {
                            M::clone_transition(candidate)
                        } else {
                            M::clone_transition(&self.acceptable_transitions[i].1)
                        }
                    },
                    None => M::clone_transition(&self.acceptable_transitions[i].1),
                };
                let ghost prev = views(r@);
                proof {
                    assert(self.accepted()[i as int] == self.acceptable_transitions@[i as int].1@);
                    assert(t@ == values[i as int]);
                }
                r.push(t);
                proof {
                    assert(views(r@) =~= prev.push(t@));
                    assert(views(r@) =~= select(values.take(i as int), self.included()).push(
                        values[i as int],
                    ));
                }
            }
            i = i + 1;
        }
        proof {
            assert(values.take(i as int) =~= values);
        }
        r
    }

    /// Checks the included transitions against the pre-conditions, taken from
    /// `start`, with position `ix` of `substitute` taking the given transition.
    fn check_acceptable(
        &self,
        start: &M::State,
        substitute: Option<(usize, &M::Transition)>,
    ) -> (r: bool)
        requires
            self.shaped(),
            match substitute {
                Some((ix, _)) => ix < self.len(),
                None => true,
            },
        ensures
            r == replays::<M>(
                start@,
                match substitute {
                    Some((ix, t)) => self.candidate(ix as int, t@),
                    None => self.current_transitions(),
                },
            ),
    {
        let transitions = self.get_included_acceptable_transitions(substitute);
        check_sequence::<M>(start, &transitions)
    }

    /// Whether the initial state may still be shrunk, or some included
    /// position has had neither its simplification nor its complication
    /// rejected.
    fn can_simplify(&self) -> (r: bool)
        requires
            self.wf(),
        ensures
            r == (self.initial_shrinkable() || exists|i: int|
                0 <= i < self.len() && #[trigger] self.included().contains(i)
                    && self.statuses()[i] == TransitionState::Accepted),
    {
        if self.is_initial_state_shrinkable {
            return true;
        }
        let mut i: usize = 0;
        while i < self.acceptable_transitions.len()
            invariant
                self.wf(),
                !self.initial_shrinkable(),
                i <= self.len(),
                forall|j: int|
                    0 <= j < i && #[trigger] self.included().contains(j) ==> self.statuses()[j]
                        != TransitionState::Accepted,
            decreases self.len() - i,
        {
            if bit_test(&self.included_transitions, i) && matches!(
                self.acceptable_transitions[i].0,
                TransitionState::Accepted
            ) {
                return true;
            }
            i = i + 1;
        }
        false
    }

    /// The position that the simplify phase turns to after `current_ix`:
    /// the next one, or the first after the last.
    fn next_shrink_transition(&self, current_ix: usize) -> (r: Shrink)
        requires
            current_ix < self.len(),
        ensures
            match r {
                Shrink::Transition(k) => k == if current_ix + 1 == self.len() {
                    0
                } else {
                    current_ix + 1
                },
                _ => false,
            },
    {
        if current_ix == self.transitions.len() - 1 {
            Shrink::Transition(0)
        } else {
            Shrink::Transition(current_ix + 1)
        }
    }

    /// Whether position `j` is included and the sequence accepts its pending
    /// transition in `pending` there.
    pub open spec fn acceptable_at(
        self,
        j: int,
        pending: Seq<Option<<M::Transition as View>::V>>,
    ) -> bool {
        &&& self.included().contains(j)
        &&& pending[j] is Some
        &&& replays::<M>(self.initial_view(), self.candidate(j, pending[j]->Some_0))
    }

    /// Looks, from position `ix` on and round to it again, for an included
    /// position whose tree now holds a transition that the sequence accepts,
    /// and takes it.
    fn try_to_find_acceptable_transition(&mut self, ix: usize) -> (r: bool)
        requires
            old(self).wf(),
            ix < old(self).len(),
            is_transition(old(self).last_op()),
        ensures
            old(self).probed(*final(self), r),
    {
        let mut pending: Vec<Option<M::Transition>> = Vec::new();
        let mut i: usize = 0;
        while i < self.transitions.len()
            invariant
                self.wf(),
                *self == *old(self),
                i <= self.len(),
                pending@.len() == i,
                forall|k: int| 0 <= k < i ==> (#[trigger] pending@[k] is Some <==> self.included().contains(k)),
            decreases self.len() - i,
        {
            if bit_test(&self.included_transitions, i) {
                pending.push(Some(self.transitions[i].current()));
            } else {
                pending.push(None);
            }
            i = i + 1;
        }
        let r = self.adopt_first_acceptable(ix, &pending);
        proof {
            if r {
                let j = choose|j: int|
                    0 <= j < old(self).len() && #[trigger] old(self).acceptable_at(
                        j,
                        option_views(pending@),
                    ) && self.accepted() == old(self).accepted().update(
                        j,
                        option_views(pending@)[j]->Some_0,
                    ) && self.statuses() == old(self).statuses().update(
                        j,
                        TransitionState::Accepted,
                    );
                assert(self.accepted() =~= old(self).accepted().update(j, self.accepted()[j]));
            }
        }
        r
    }

    /// Takes, among the included positions from `ix` on and round to it
    /// again, the first whose transition in `pending` the sequence accepts;
    /// returns whether there was one.
    fn adopt_first_acceptable(&mut self, ix: usize, pending: &Vec<Option<M::Transition>>) -> (r:
        bool)
        requires
            old(self).wf(),
            ix < old(self).len(),
            is_transition(old(self).last_op()),
            pending@.len() == old(self).len(),
            forall|k: int|
                0 <= k < old(self).len() ==> (#[trigger] pending@[k] is Some
                    <==> old(self).included().contains(k)),
        ensures
            final(self).wf(),
            final(self).len() == old(self).len(),
            final(self).included() == old(self).included(),
            final(self).initial_view() == old(self).initial_view(),
            final(self).plan() == old(self).plan(),
            final(self).last_op() == old(self).last_op(),
            final(self).shrinkable() == old(self).shrinkable(),
            final(self).initial_shrinkable() == old(self).initial_shrinkable(),
            r == exists|j: int|
                0 <= j < old(self).len() && #[trigger] old(self).acceptable_at(
                    j,
                    option_views(pending@),
                ),
            r ==> exists|j: int|
                0 <= j < old(self).len() && #[trigger] old(self).acceptable_at(
                    j,
                    option_views(pending@),
                ) && final(self).accepted() == old(self).accepted().update(
                    j,
                    option_views(pending@)[j]->Some_0,
                ) && final(self).statuses() == old(self).statuses().update(
                    j,
                    TransitionState::Accepted,
                ) && forall|k: int|
                    0 <= k < old(self).len() && ahead(k, ix as int, old(self).len() as int)
                        < ahead(j, ix as int, old(self).len() as int) ==> !old(self).acceptable_at(
                        k,
                        option_views(pending@),
                    ),
            !r ==> *final(self) == *old(self),
    {
        let ghost n = self.len() as int;
        let ghost views = option_views(pending@);
        let ghost mut steps: int = 0;
        let mut ix_to_check: usize = ix;
        loop
            invariant
                self.wf(),
                *self == *old(self),
                self.len() == n,
                n == old(self).len(),
                ix < n,
                is_transition(self.last_op()),
                pending@.len() == n,
                views == option_views(pending@),
                forall|k: int|
                    0 <= k < n ==> (#[trigger] pending@[k] is Some <==> old(self).included().contains(k)),
                0 <= steps < n,
                ix_to_check == if ix + steps < n {
                    ix + steps
                } else {
                    ix + steps - n
                },
                forall|k: int|
                    0 <= k < n && ahead(k, ix as int, n) < steps ==> !#[trigger] old(self).acceptable_at(
                        k,
                        views,
                    ),
            decreases n - steps,
        {
            let ghost at = ix_to_check as int;
            proof {
                assert(ahead(at, ix as int, n) == steps);
            }
            match &pending[ix_to_check] {
                Some(t) => {
                    let candidate = M::clone_transition(t);
                    proof {
                        assert(views[at] == Some(candidate@));
                    }
                    if self.adopt_if_acceptable(ix_to_check, candidate) {
                        proof {
                            assert(old(self).acceptable_at(at, views));
                            assert forall|k: int|
                                0 <= k < n && ahead(k, ix as int, n) < ahead(at, ix as int, n)
                                    implies !old(self).acceptable_at(k, views) by {}
                        }
                        return true;
                    }
                    proof {
                        assert(!old(self).acceptable_at(at, views));
                    }
                },
                None => {
                    proof {
                        assert(views[at] is None);
                        assert(!old(self).acceptable_at(at, views));
                    }
                },
            }
            if ix_to_check == self.transitions.len() - 1 {
                ix_to_check = 0;
            } else {
                ix_to_check = ix_to_check + 1;
            }
            proof {
                assert forall|k: int|
                    0 <= k < n && ahead(k, ix as int, n) < steps + 1 implies !#[trigger] old(self).acceptable_at(
                        k,
                        views,
                    ) by {
                    if ahead(k, ix as int, n) == steps {
                        assert(k == at);
                    }
                }
                steps = steps + 1;
            }
            if ix_to_check == ix {
                proof {
                    assert forall|k: int| 0 <= k < n implies !#[trigger] old(self).acceptable_at(
                        k,
                        views,
                    ) by {
                        assert(ahead(k, ix as int, n) < steps);
                    }
                }
                return false;
            }
        }
    }

    /// Applies the planned shrink operation, moving the plan on as it goes:
    /// deletions from the back, then simplifications of the included
    /// transitions from the front and round again, then the initial state.
    /// Returns whether a shrink was applied.
    fn try_simplify(&mut self) -> (r: bool)
        requires
            old(self).wf(),
        ensures
            old(self).simplified(*final(self), r),
        decreases old(self).open_count(), old(self).deletes_left(), 0nat,
    {
        if let Shrink::DeleteTransition(ix) = self.shrink {
            bit_clear(&mut self.included_transitions, ix);
            self.last_shrink = Some(self.shrink);
            self.shrink = if ix == 0 {
                Shrink::Transition(0)
            } else {
                Shrink::DeleteTransition(ix - 1)
            };
            if !self.check_acceptable(&self.last_valid_initial_state, None) {
                bit_set(&mut self.included_transitions, ix);
                self.last_shrink = None;
                proof {
                    assert(self.included() =~= old(self).included());
                    assert(self.statuses() == old(self).statuses());
                    assert(!old(self).deletable(ix as int));
                    assert(self.accepted() == old(self).accepted());
                    assert(self.initial_view() == old(self).initial_view());
                    assert(forall|k: int| #[trigger] self.deletable(k) == old(self).deletable(k));
                    if exists|k: int| 0 <= k <= ix && #[trigger] old(self).deletable(k) {
                        let k = choose|k: int| 0 <= k <= ix && #[trigger] old(self).deletable(k);
                        assert(k < ix);
                        assert(self.deletable(k));
                    }
                }
                let ghost mid = *self;
                let r = self.try_simplify();
                proof {
                    if r && is_delete(self.last_op()) {
                        assert(mid.plan() == Shrink::DeleteTransition((ix - 1) as usize));
                        assert(forall|k: int| #[trigger] mid.deletable(k) == old(self).deletable(k));
                        let i = match self.last_op() {
                            Some(Shrink::DeleteTransition(i)) => i as int,
                            _ => 0,
                        };
                        assert forall|k: int| i < k <= ix implies !#[trigger] old(self).deletable(
                            k,
                        ) by {
                            if k < ix {
                                assert(!mid.deletable(k));
                            }
                        }
                    }
                }
                return r;
            }
            bit_clear(&mut self.shrinkable_transitions, ix);
            proof {
                assert(self.included().insert(ix as int) =~= old(self).included());
            }
            return true;
        }
        let ghost n = self.len() as int;
        let ghost mut skipped: int = 0;
        loop
            invariant
                self.wf(),
                self.len() == n,
                n == old(self).len(),
                old(self).wf(),
                !(old(self).plan() is DeleteTransition),
                !(self.plan() is DeleteTransition),
                phase(old(self).plan()) <= phase(self.plan()),
                self.included() == old(self).included(),
                self.accepted() == old(self).accepted(),
                self.statuses() == old(self).statuses(),
                self.initial_view() == old(self).initial_view(),
                self.last_op() == old(self).last_op(),
                self.initial_shrinkable() == old(self).initial_shrinkable(),
                0 <= skipped <= n,
                match self.plan() {
                    Shrink::Transition(ix) => forall|j: int| #[trigger]
                        self.shrinkable().contains(j) ==> ahead(j, ix as int, n) < n - skipped,
                    _ => true,
                },
            ensures
                self.wf(),
                self.len() == old(self).len(),
                self.plan() == Shrink::InitialState,
                self.included() == old(self).included(),
                self.accepted() == old(self).accepted(),
                self.statuses() == old(self).statuses(),
                self.initial_view() == old(self).initial_view(),
                self.last_op() == old(self).last_op(),
            decreases n - skipped,
        {
            let ix = match self.shrink {
                Shrink::Transition(ix) => ix,
                _ => break,
            };
            if bit_count(&self.shrinkable_transitions) == 0 {
                self.shrink = Shrink::InitialState;
                break;
            }
            let ghost before = self.shrinkable();
            proof {
                let j = self.shrinkable().choose();
                assert(self.shrinkable().contains(j));
            }
            if !bit_test(&self.included_transitions, ix) {
                self.shrink = self.next_shrink_transition(ix);
            } else if matches!(
                self.acceptable_transitions[ix].0,
                TransitionState::SimplifyRejected
            ) {
                proof {
                    assert(self.statuses()[ix as int] == TransitionState::SimplifyRejected);
                }
                self.shrink = self.next_shrink_transition(ix);
            } else if self.transitions[ix].simplify() {
                let candidate = self.transitions[ix].current();
                proof {
                    assert(self.statuses()[ix as int] != TransitionState::SimplifyRejected);
                    lemma_count_open_close(self.statuses(), ix as int);
                }
                if self.take_simpler(ix, candidate) {
                    proof {
                        let j = ix as int;
                        assert(self.accepted() =~= old(self).accepted().update(
                            j,
                            self.accepted()[j],
                        ));
                        assert(old(self).included().contains(j));
                    }
                    return true;
                }
                return self.simplify();
            } else {
                bit_clear(&mut self.shrinkable_transitions, ix);
                self.shrink = self.next_shrink_transition(ix);
            }
            proof {
                let nix: int = match self.plan() {
                    Shrink::Transition(k) => k as int,
                    _ => 0,
                };
                assert(nix == if ix + 1 == n {
                    0
                } else {
                    ix + 1
                });
                assert(!self.shrinkable().contains(ix as int));
                assert forall|j: int| #[trigger]
                    self.shrinkable().contains(j) implies ahead(j, nix, n) < n - (skipped + 1) by {
                    assert(before.contains(j));
                }
                skipped = skipped + 1;
            }
        }
        if self.initial_state.simplify() {
            let candidate = self.initial_state.current();
            return self.take_initial(candidate);
        }
        self.is_initial_state_shrinkable = false;
        self.last_shrink = None;
        false
    }

    /// Shrinks the value one step, if it can; returns whether it did.
    ///
    /// When the initial state is spent and every included transition has had
    /// a simplification or a complication rejected, and the last shrink was
    /// a simplification, this looks for a position whose pending transition
    /// the sequence now accepts.
    pub fn simplify(&mut self) -> (r: bool)
        requires
            old(self).wf(),
        ensures
            old(self).simplified(*final(self), r),
            old(self).settles(*final(self), r),
            old(self).spent() && is_transition(old(self).last_op()) ==> old(self).probed(
                *final(self),
                r,
            ),
        decreases old(self).open_count(), old(self).deletes_left(), 1nat,
    {
        if self.can_simplify() {
            self.try_simplify()
        } else {
            if let Some(Shrink::Transition(ix)) = self.last_shrink {
                return self.try_to_find_acceptable_transition(ix);
            }
            false
        }
    }

    /// Undoes part of the last shrink operation; returns whether it did.
    ///
    /// A deletion is undone whole and once. A simplified transition is
    /// complicated as long as its tree can and the sequence accepts the
    /// result. The initial state is complicated once.
    pub fn complicate(&mut self) -> (r: bool)
        requires
            old(self).wf(),
        ensures
            old(self).complicated(*final(self), r),
    {
        match self.last_shrink {
            None => false,
            Some(Shrink::DeleteTransition(ix)) => {
                bit_set(&mut self.included_transitions, ix);
                bit_set(&mut self.shrinkable_transitions, ix);
                self.last_shrink = None;
                true
            },
            Some(Shrink::Transition(ix)) => {
                if self.transitions[ix].complicate() {
                    let candidate = self.transitions[ix].current();
                    let r = self.take_complicated(ix, candidate);
                    proof {
                        assert(self.accepted() =~= old(self).accepted().update(
                            ix as int,
                            self.accepted()[ix as int],
                        ));
                    }
                    return r;
                }
                self.last_shrink = None;
                proof {
                    assert(self.accepted() =~= old(self).accepted().update(
                        ix as int,
                        self.accepted()[ix as int],
                    ));
                }
                false
            },
            Some(Shrink::InitialState) => {
                self.last_shrink = None;
                if self.initial_state.complicate() {
                    let candidate = self.initial_state.current();
                    if self.check_acceptable(&candidate, None) {
                        self.last_valid_initial_state = candidate;
                        return true;
                    }
                }
                false
            },
        }
    }

    /// Takes `candidate` as the transition of the included position `ix`
    /// when the sequence accepts it there; returns whether it did.
    fn adopt_if_acceptable(&mut self, ix: usize, candidate: M::Transition) -> (r: bool)
        requires
            old(self).wf(),
            ix < old(self).len(),
            old(self).included().contains(ix as int),
            !(old(self).plan() is DeleteTransition),
            !is_delete(old(self).last_op()),
        ensures
            r == replays::<M>(old(self).initial_view(), old(self).candidate(ix as int, candidate@)),
            r ==> {
                &&& final(self).wf()
                &&& final(self).len() == old(self).len()
                &&& final(self).included() == old(self).included()
                &&& final(self).initial_view() == old(self).initial_view()
                &&& final(self).plan() == old(self).plan()
                &&& final(self).last_op() == old(self).last_op()
                &&& final(self).shrinkable() == old(self).shrinkable()
                &&& final(self).initial_shrinkable() == old(self).initial_shrinkable()
                &&& final(self).accepted() == old(self).accepted().update(ix as int, candidate@)
                &&& final(self).statuses() == old(self).statuses().update(
                    ix as int,
                    TransitionState::Accepted,
                )
            },
            !r ==> *final(self) == *old(self),
    {
        if self.check_acceptable(&self.last_valid_initial_state, Some((ix, &candidate))) {
            self.set_accepted(ix, candidate);
            true
        } else {
            false
        }
    }

    /// The step of the simplify phase at position `ix`, whose tree has just
    /// moved to the simpler `candidate`: the candidate is taken when the
    /// sequence accepts it; otherwise the position is marked as rejected,
    /// it is no longer shrinkable, and the plan moves to the next position.
    fn take_simpler(&mut self, ix: usize, candidate: M::Transition) -> (r: bool)
        requires
            old(self).wf(),
            ix < old(self).len(),
            old(self).plan() == Shrink::Transition(ix),
            old(self).included().contains(ix as int),
            old(self).statuses()[ix as int] != TransitionState::SimplifyRejected,
        ensures
            final(self).wf(),
            final(self).len() == old(self).len(),
            final(self).included() == old(self).included(),
            final(self).initial_view() == old(self).initial_view(),
            final(self).initial_shrinkable() == old(self).initial_shrinkable(),
            final(self).last_op() == Some(Shrink::Transition(ix)),
            r == replays::<M>(old(self).initial_view(), old(self).candidate(ix as int, candidate@)),
            r ==> {
                &&& final(self).accepted() == old(self).accepted().update(ix as int, candidate@)
                &&& final(self).statuses() == old(self).statuses().update(
                    ix as int,
                    TransitionState::Accepted,
                )
                &&& final(self).shrinkable() == old(self).shrinkable()
                &&& final(self).plan() == old(self).plan()
            },
            !r ==> {
                &&& final(self).accepted() == old(self).accepted()
                &&& final(self).statuses() == old(self).statuses().update(
                    ix as int,
                    TransitionState::SimplifyRejected,
                )
                &&& final(self).shrinkable() == old(self).shrinkable().remove(ix as int)
                &&& final(self).plan() == Shrink::Transition(
                    if ix + 1 == old(self).len() {
                        0
                    } else {
                        (ix + 1) as usize
                    },
                )
            },
    {
        self.last_shrink = Some(Shrink::Transition(ix));
        if self.adopt_if_acceptable(ix, candidate) {
            return true;
        }
        bit_clear(&mut self.shrinkable_transitions, ix);
        self.set_status(ix, TransitionState::SimplifyRejected);
        self.shrink = self.next_shrink_transition(ix);
        false
    }

    /// The step of the complicate phase at position `ix`, whose tree has just
    /// moved to the more complex `candidate`: the candidate is taken when the
    /// sequence accepts it; otherwise the position is marked as rejected and
    /// nothing is left to complicate.
    fn take_complicated(&mut self, ix: usize, candidate: M::Transition) -> (r: bool)
        requires
            old(self).wf(),
            old(self).last_op() == Some(Shrink::Transition(ix)),
        ensures
            final(self).wf(),
            final(self).len() == old(self).len(),
            final(self).included() == old(self).included(),
            final(self).initial_view() == old(self).initial_view(),
            final(self).initial_shrinkable() == old(self).initial_shrinkable(),
            final(self).plan() == old(self).plan(),
            final(self).shrinkable() == old(self).shrinkable(),
            r == replays::<M>(old(self).initial_view(), old(self).candidate(ix as int, candidate@)),
            r ==> {
                &&& final(self).accepted() == old(self).accepted().update(ix as int, candidate@)
                &&& final(self).statuses() == old(self).statuses().update(
                    ix as int,
                    TransitionState::Accepted,
                )
                &&& final(self).last_op() == old(self).last_op()
            },
            !r ==> {
                &&& final(self).accepted() == old(self).accepted()
                &&& final(self).statuses() == old(self).statuses().update(
                    ix as int,
                    TransitionState::ComplicateRejected,
                )
                &&& final(self).last_op() is None
            },
    {
        if self.adopt_if_acceptable(ix, candidate) {
            return true;
        }
        self.set_status(ix, TransitionState::ComplicateRejected);
        self.last_shrink = None;
        false
    }

    /// The step of the initial-state phase, whose tree has just moved to the
    /// simpler `candidate`: it becomes the initial state when the included
    /// transitions replay from it; otherwise the initial state is spent.
    fn take_initial(&mut self, candidate: M::State) -> (r: bool)
        requires
            old(self).wf(),
            !(old(self).plan() is DeleteTransition),
        ensures
            final(self).wf(),
            final(self).len() == old(self).len(),
            final(self).included() == old(self).included(),
            final(self).accepted() == old(self).accepted(),
            final(self).statuses() == old(self).statuses(),
            final(self).shrinkable() == old(self).shrinkable(),
            final(self).plan() == old(self).plan(),
            r == replays::<M>(candidate@, old(self).current_transitions()),
            r ==> {
                &&& final(self).initial_view() == candidate@
                &&& final(self).last_op() == Some(Shrink::InitialState)
                &&& final(self).initial_shrinkable() == old(self).initial_shrinkable()
            },
            !r ==> {
                &&& final(self).initial_view() == old(self).initial_view()
                &&& final(self).last_op() is None
                &&& !final(self).initial_shrinkable()
            },
    {
        if self.check_acceptable(&candidate, None) {
            self.last_valid_initial_state = candidate;
            self.last_shrink = Some(Shrink::InitialState);
            true
        } else {
            self.is_initial_state_shrinkable = false;
            self.last_shrink = None;
            false
        }
    }

    /// Takes `candidate`, which the sequence accepts at the included
    /// position `ix`, as that position's transition.
    fn set_accepted(&mut self, ix: usize, candidate: M::Transition)
        requires
            old(self).wf(),
            ix < old(self).len(),
            old(self).included().contains(ix as int),
            !(old(self).plan() is DeleteTransition),
            !is_delete(old(self).last_op()),
            replays::<M>(old(self).initial_view(), old(self).candidate(ix as int, candidate@)),
        ensures
            final(self).wf(),
            final(self).len() == old(self).len(),
            final(self).included() == old(self).included(),
            final(self).initial_view() == old(self).initial_view(),
            final(self).plan() == old(self).plan(),
            final(self).last_op() == old(self).last_op(),
            final(self).shrinkable() == old(self).shrinkable(),
            final(self).initial_shrinkable() == old(self).initial_shrinkable(),
            final(self).accepted() == old(self).accepted().update(ix as int, candidate@),
            final(self).statuses() == old(self).statuses().update(
                ix as int,
                TransitionState::Accepted,
            ),
    {
        let ghost c = candidate@;
        self.acceptable_transitions.set(ix, (TransitionState::Accepted, candidate));
        proof {
            assert(self.accepted() =~= old(self).accepted().update(ix as int, c));
            assert(self.statuses() =~= old(self).statuses().update(
                ix as int,
                TransitionState::Accepted,
            ));
        }
    }

    /// Marks the included position `ix` with `status`, keeping its transition.
    fn set_status(&mut self, ix: usize, status: TransitionState)
        requires
            old(self).wf(),
            ix < old(self).len(),
            old(self).included().contains(ix as int),
            !(old(self).plan() is DeleteTransition),
            status == TransitionState::SimplifyRejected ==> !old(self).shrinkable().contains(
                ix as int,
            ),
        ensures
            final(self).wf(),
            final(self).len() == old(self).len(),
            final(self).included() == old(self).included(),
            final(self).initial_view() == old(self).initial_view(),
            final(self).plan() == old(self).plan(),
            final(self).last_op() == old(self).last_op(),
            final(self).shrinkable() == old(self).shrinkable(),
            final(self).initial_shrinkable() == old(self).initial_shrinkable(),
            final(self).accepted() == old(self).accepted(),
            final(self).statuses() == old(self).statuses().update(ix as int, status),
    {
        let t = M::clone_transition(&self.acceptable_transitions[ix].1);
        self.acceptable_transitions.set(ix, (status, t));
        proof {
            assert(self.accepted() =~= old(self).accepted());
            assert(self.statuses() =~= old(self).statuses().update(ix as int, status));
        }
    }

    /// The current value: the initial state and the included transitions.
    pub fn current(&self) -> (r: (M::State, Vec<M::Transition>))
        requires
            self.wf(),
        ensures
            r.0@ == self.initial_view(),
            views(r.1@) == self.current_transitions(),
            replays::<M>(r.0@, views(r.1@)),
    {
        (M::clone_state(&self.last_valid_initial_state), self.get_included_acceptable_transitions(None))
    }
}

/// Selecting every position keeps the whole sequence.
proof fn lemma_select_all<X>(values: Seq<X>, keep: Set<int>)
    requires
        forall|i: int| 0 <= i < values.len() ==> #[trigger] keep.contains(i),
    ensures
        select(values, keep) == values,
    decreases values.len(),
{
    if values.len() > 0 {
        lemma_select_all(values.drop_last(), keep);
        assert(values.drop_last().push(values.last()) =~= values);
    }
}

/// The current value of a well-formed value tree satisfies the
/// pre-conditions: each transition is allowed in the state that the initial
/// state and the transitions before it reach. Generation yields such a tree,
/// and `simplify` and `complicate` keep it so.
pub proof fn lemma_current_replays<
    M: ReferenceStateMachine,
    ST: AtomicValueTree<M::State>,
    TT: AtomicValueTree<M::Transition>,
>(
    tree: SequentialValueTree<M, ST, TT>,
)
    requires
        tree.wf(),
    ensures
        replays::<M>(tree.initial_view(), tree.current_transitions()),
{
}

/// Deleting a transition makes the current sequence strictly shorter, and
/// including it again restores the current value exactly.
pub proof fn lemma_delete_round_trip<
    M: ReferenceStateMachine,
    ST: AtomicValueTree<M::State>,
    TT: AtomicValueTree<M::Transition>,
>(
    before: SequentialValueTree<M, ST, TT>,
    deleted: SequentialValueTree<M, ST, TT>,
    restored: SequentialValueTree<M, ST, TT>,
    ix: int,
)
    requires
        before.wf(),
        before.deletes(deleted, ix),
        deleted.restores(restored, ix),
    ensures
        deleted.current_transitions().len() < before.current_transitions().len(),
        restored.current_transitions() == before.current_transitions(),
        restored.initial_view() == before.initial_view(),
{
    lemma_select_remove(before.accepted(), before.included(), ix);
    assert(restored.included() =~= before.included());
}

/// Selecting the positions below `m` keeps the first `m` values.
proof fn lemma_select_range<X>(values: Seq<X>, m: int)
    requires
        0 <= m <= values.len(),
    ensures
        select(values, set_int_range(0, m)) == values.take(m),
    decreases values.len(),
{
    if values.len() > 0 {
        if m == values.len() {
            lemma_select_same(values.drop_last(), set_int_range(0, m), set_int_range(0, m - 1));
            lemma_select_range(values.drop_last(), m - 1);
            assert(values.drop_last().take(m - 1).push(values.last()) =~= values.take(m));
        } else {
            lemma_select_range(values.drop_last(), m);
            assert(values.drop_last().take(m) =~= values.take(m));
        }
    } else {
        assert(values.take(m) =~= Seq::<X>::empty());
    }
}

/// When the included positions are exactly those up to the planned deletion
/// `d`, deleting `d` is acceptable: what is left is a prefix of a sequence
/// that replays. With the contract of `simplify`, which deletes the highest
/// acceptable position not above the plan and then plans the one below it,
/// the first calls on a freshly generated tree delete its transitions from
/// the back, one per call.
pub proof fn lemma_last_deletable<
    M: ReferenceStateMachine,
    ST: AtomicValueTree<M::State>,
    TT: AtomicValueTree<M::Transition>,
>(tree: SequentialValueTree<M, ST, TT>, d: usize)
    requires
        tree.wf(),
        tree.plan() == Shrink::DeleteTransition(d),
        tree.included() == set_int_range(0, d + 1),
    ensures
        tree.deletable(d as int),
        tree.included().remove(d as int) == set_int_range(0, d as int),
{
    let values = tree.accepted();
    assert(d < tree.len());
    assert(values.len() == tree.len());
    lemma_select_range(values, d + 1);
    assert(tree.included().remove(d as int) =~= set_int_range(0, d as int));
    lemma_select_range(values, d as int);
    lemma_replays_prefix::<M>(tree.initial_view(), values.take(d + 1), d as int);
    assert(values.take(d + 1).take(d as int) =~= values.take(d as int));
}

/// Along a run of `simplify` and `complicate` calls, the plan never goes back
/// to an earlier phase.
pub proof fn lemma_phase_monotone<
    M: ReferenceStateMachine,
    ST: AtomicValueTree<M::State>,
    TT: AtomicValueTree<M::Transition>,
>(
    states: Seq<SequentialValueTree<M, ST, TT>>,
    results: Seq<bool>,
    simplifying: Seq<bool>,
    a: int,
    b: int,
)
    requires
        states.len() == results.len() + 1,
        simplifying.len() == results.len(),
        forall|k: int|
            0 <= k < results.len() ==> #[trigger] states[k].stepped(
                states[k + 1],
                results[k],
                simplifying[k],
            ),
        0 <= a <= b < states.len(),
    ensures
        phase(states[a].plan()) <= phase(states[b].plan()),
    decreases b - a,
{
    if a < b {
        assert(states[b - 1].stepped(states[b - 1 + 1], results[b - 1], simplifying[b - 1]));
        lemma_phase_monotone(states, results, simplifying, a, b - 1);
    }
}

/// Along a run of `simplify` and `complicate` calls, deletions come first:
/// after a successful `simplify` of any other kind, no `simplify` deletes a
/// transition. After a successful shrink of the initial state, a transition
/// is simplified only by the recovery probe, on a tree where nothing else is
/// left to shrink.
pub proof fn lemma_phase_order<
    M: ReferenceStateMachine,
    ST: AtomicValueTree<M::State>,
    TT: AtomicValueTree<M::Transition>,
>(
    states: Seq<SequentialValueTree<M, ST, TT>>,
    results: Seq<bool>,
    simplifying: Seq<bool>,
    a: int,
    b: int,
)
    requires
        states.len() == results.len() + 1,
        simplifying.len() == results.len(),
        forall|k: int|
            0 <= k < results.len() ==> #[trigger] states[k].stepped(
                states[k + 1],
                results[k],
                simplifying[k],
            ),
        0 <= a < b < results.len(),
        simplifying[a],
        simplifying[b],
        results[a],
        results[b],
    ensures
        is_delete(states[b + 1].last_op()) ==> is_delete(states[a + 1].last_op()),
        states[a + 1].last_op() == Some(Shrink::InitialState) && is_transition(
            states[b + 1].last_op(),
        ) ==> states[b].spent(),
{
    assert(states[a].stepped(states[a + 1], results[a], simplifying[a]));
    assert(states[b].stepped(states[b + 1], results[b], simplifying[b]));
    lemma_phase_monotone(states, results, simplifying, a + 1, b);
}

/// Once a tree is spent and its last shrink was no simplification of a
/// transition, every further `simplify` returns false.
pub proof fn lemma_spent_stays_spent<
    M: ReferenceStateMachine,
    ST: AtomicValueTree<M::State>,
    TT: AtomicValueTree<M::Transition>,
>(states: Seq<SequentialValueTree<M, ST, TT>>, results: Seq<bool>, a: int)
    requires
        states.len() == results.len() + 1,
        forall|k: int|
            0 <= k < results.len() ==> #[trigger] states[k].settles(states[k + 1], results[k]),
        0 <= a < states.len(),
        states[a].spent(),
        !is_transition(states[a].last_op()),
    ensures
        forall|k: int| a <= k < results.len() ==> !results[k] && states[k + 1] == states[a],
    decreases results.len() - a,
{
    if a < results.len() {
        assert(states[a].settles(states[a + 1], results[a]));
        lemma_spent_stays_spent(states, results, a + 1);
    }
}

/// A sequential state machine strategy: the closed range of lengths that
/// its sequences of transitions are generated with.
#[derive(Debug)]
pub struct Sequential {
    min_size: usize,
    max_size: usize,
}

impl Sequential {
    /// The least length of a generated sequence.
    pub closed spec fn min_size(self) -> nat {
        self.min_size as nat
    }

    /// The greatest length of a generated sequence.
    pub closed spec fn max_size(self) -> nat {
        self.max_size as nat
    }

    /// A strategy whose sequences have between `min_size` and `max_size`
    /// transitions, both included.
    pub fn new(min_size: usize, max_size: usize) -> (r: Self)
        requires
            min_size <= max_size,
        ensures
            r.min_size() == min_size,
            r.max_size() == max_size,
    {
        Sequential { min_size, max_size }
    }

    /// The least and the greatest length of a generated sequence.
    pub fn size(&self) -> (r: (usize, usize))
        ensures
            r.0 == self.min_size(),
            r.1 == self.max_size(),
    {
        (self.min_size, self.max_size)
    }

    /// Starts the generation of a value tree from a tree of initial states:
    /// its current value is the initial state, and the number of transitions
    /// to generate is drawn from the size range.
    pub fn start<
        M: ReferenceStateMachine,
        ST: AtomicValueTree<M::State>,
        TT: AtomicValueTree<M::Transition>,
    >(
        &self,
        initial_state: ST,
        runner: &mut TestRunner,
    ) -> (r: Generation<M, ST, TT>)
        requires
            self.min_size() <= self.max_size(),
        ensures
            r.wf(),
            self.min_size() <= r.target() <= self.max_size(),
            r.accepted() == Seq::<<M::Transition as View>::V>::empty(),
            r.state_view() == r.initial_view(),
    {
        let initial = initial_state.current();
        let target = sample_size(runner, self.min_size, self.max_size);
        let state = M::clone_state(&initial);
        let r = Generation {
            initial_state,
            initial,
            state,
            target,
            transitions: Vec::new(),
            acceptable_transitions: Vec::new(),
        };
        proof {
            assert(r.accepted() =~= Seq::<<M::Transition as View>::V>::empty());
        }
        r
    }
}

/// A value tree being generated: transitions are drawn one at a time from
/// the state that the accepted ones reach, and kept when that state allows
/// them.
pub struct Generation<M: ReferenceStateMachine, StateTree, TransitionTree> {
    initial_state: StateTree,
    initial: M::State,
    state: M::State,
    target: usize,
    transitions: Vec<TransitionTree>,
    acceptable_transitions: Vec<(TransitionState, M::Transition)>,
}

impl<
    M: ReferenceStateMachine,
    ST: AtomicValueTree<M::State>,
    TT: AtomicValueTree<M::Transition>,
> Generation<M, ST, TT> {
    /// The initial state of the sequence.
    pub closed spec fn initial_view(self) -> <M::State as View>::V {
        self.initial@
    }

    /// The state that the accepted transitions reach.
    pub closed spec fn state_view(self) -> <M::State as View>::V {
        self.state@
    }

    /// The number of transitions to generate.
    pub closed spec fn target(self) -> nat {
        self.target as nat
    }

    /// The transitions accepted so far.
    pub closed spec fn accepted(self) -> Seq<<M::Transition as View>::V> {
        self.acceptable_transitions@.map_values(|p: (TransitionState, M::Transition)| p.1@)
    }

    /// The accepted transitions satisfy the pre-conditions in order, and lead
    /// to the current state.
    pub closed spec fn wf(self) -> bool {
        &&& self.transitions@.len() == self.acceptable_transitions@.len()
        &&& self.acceptable_transitions@.len() <= self.target
        &&& forall|i: int|
            0 <= i < self.acceptable_transitions@.len()
                ==> #[trigger] self.acceptable_transitions@[i].0 == TransitionState::Accepted
        &&& replays::<M>(self.initial@, self.accepted())
        &&& self.state@ == run::<M>(self.initial@, self.accepted())
    }

    /// The state that the next transition must be drawn for.
    pub fn state(&self) -> (r: &M::State)
        ensures
            r@ == self.state_view(),
    {
        &self.state
    }

    /// Whether all the transitions have been generated.
    pub fn is_complete(&self) -> (r: bool)
        requires
            self.wf(),
        ensures
            r == (self.accepted().len() == self.target()),
    {
        self.acceptable_transitions.len() == self.target
    }

    /// Offers a tree of transitions drawn for the current state: its current
    /// transition is offered with it.
    pub fn offer(&mut self, tree: TT, runner: &mut TestRunner) -> (r: Result<(), Reason>)
        requires
            old(self).wf(),
            old(self).accepted().len() < old(self).target(),
        ensures
            final(self).wf(),
            final(self).target() == old(self).target(),
            final(self).initial_view() == old(self).initial_view(),
            final(self).accepted() == old(self).accepted() || {
                &&& r is Ok
                &&& final(self).accepted().len() == old(self).accepted().len() + 1
                &&& final(self).accepted().drop_last() == old(self).accepted()
                &&& M::allows(old(self).state_view(), final(self).accepted().last())
                &&& final(self).state_view() == M::step(
                    old(self).state_view(),
                    final(self).accepted().last(),
                )
            },
            final(self).accepted() == old(self).accepted() ==> final(self).state_view()
                == old(self).state_view(),
    {
        let transition = tree.current();
        self.offer_transition(tree, transition, runner)
    }

    /// Offers `transition`, drawn from `tree` for the current state. It is
    /// kept, with its tree, and the state moved on by it, when the state
    /// allows it; otherwise the runner counts a local rejection, whose failure
    /// is handed back.
    pub fn offer_transition(
        &mut self,
        tree: TT,
        transition: M::Transition,
        runner: &mut TestRunner,
    ) -> (r: Result<(), Reason>)
        requires
            old(self).wf(),
            old(self).accepted().len() < old(self).target(),
        ensures
            final(self).wf(),
            final(self).target() == old(self).target(),
            final(self).initial_view() == old(self).initial_view(),
            if M::allows(old(self).state_view(), transition@) {
                &&& r is Ok
                &&& final(self).accepted() == old(self).accepted().push(transition@)
                &&& final(self).state_view() == M::step(old(self).state_view(), transition@)
            } else {
                &&& final(self).accepted() == old(self).accepted()
                &&& final(self).state_view() == old(self).state_view()
            },
    {
        if M::preconditions(&self.state, &transition) {
            let ghost t = transition@;
            let ghost before = self.accepted();
            self.transitions.push(tree);
            let state = M::clone_state(&self.state);
            self.state = M::apply(state, &transition);
            self.acceptable_transitions.push((TransitionState::Accepted, transition));
            proof {
                assert(self.accepted() =~= before.push(t));
                assert(self.accepted().drop_last() =~= before);
            }
            Ok(())
        } else {
            reject_local(runner, "Pre-conditions were not satisfied")
        }
    }

    /// The value tree of the generated sequence, ready to be shrunk: the plan
    /// starts with deleting the last transition.
    pub fn finish(self) -> (r: SequentialValueTree<M, ST, TT>)
        requires
            self.wf(),
            self.accepted().len() == self.target(),
        ensures
            r.wf(),
            r.len() == self.target(),
            r.initial_view() == self.initial_view(),
            r.current_transitions() == self.accepted(),
            r.accepted() == self.accepted(),
            r.included() == set_int_range(0, r.len() as int),
            r.shrinkable() == r.included(),
            forall|i: int| 0 <= i < r.len() ==> #[trigger] r.statuses()[i] == TransitionState::Accepted,
            r.plan() == if r.len() == 0 {
                Shrink::Transition(0)
            } else {
                Shrink::DeleteTransition((r.len() - 1) as usize)
            },
            r.last_op() is None,
            r.initial_shrinkable(),
    {
        let n = self.acceptable_transitions.len();
        let included_transitions = VarBitSet::saturated(n);
        let shrinkable_transitions = VarBitSet::saturated(n);
        proof {
            vstd::set_lib::lemma_int_range(0, n as int);
            lemma_select_all(self.accepted(), set_int_range(0, n as int));
        }
        SequentialValueTree {
            initial_state: self.initial_state,
            is_initial_state_shrinkable: true,
            last_valid_initial_state: self.initial,
            transitions: self.transitions,
            acceptable_transitions: self.acceptable_transitions,
            included_transitions,
            shrinkable_transitions,
            shrink: if n == 0 {
                Shrink::Transition(0)
            } else {
                Shrink::DeleteTransition(n - 1)
            },
            last_shrink: None,
        }
    }
}

} // verus!

