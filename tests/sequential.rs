use proptest::arbitrary::any;
use proptest::strategy::{BoxedStrategy, Just, Strategy, TupleUnion, ValueTree};
use proptest::test_runner::{Config, TestRunner};
use proptest_state_machine::{
    check_sequence, AtomicValueTree, ReferenceStateMachine, Sequential, SequentialValueTree,
    StackMachine, StackTransition,
};
use std::fmt::Debug;
use std::sync::Arc;

/// A value tree of proptest, seen through the library's trait.
struct Tree<T: Debug>(Box<dyn ValueTree<Value = T>>);

impl<T: Debug> AtomicValueTree<T> for Tree<T> {
    fn current(&self) -> T {
        self.0.current()
    }

    fn simplify(&mut self) -> bool {
        self.0.simplify()
    }

    fn complicate(&mut self) -> bool {
        self.0.complicate()
    }
}

/// A value that cannot be shrunk.
struct Fixed<T>(T);

impl<T: Clone> AtomicValueTree<T> for Fixed<T> {
    fn current(&self) -> T {
        self.0.clone()
    }

    fn simplify(&mut self) -> bool {
        false
    }

    fn complicate(&mut self) -> bool {
        false
    }
}

type TestValueTree = SequentialValueTree<StackMachine, Tree<Vec<i32>>, Tree<StackTransition>>;

const SIMPLIFICATIONS: usize = 32;
const TRANSITIONS: usize = 32;

fn init_state() -> BoxedStrategy<Vec<i32>> {
    Just(vec![]).boxed()
}

fn transitions(state: &Vec<i32>) -> BoxedStrategy<StackTransition> {
    if state.is_empty() {
        TupleUnion::new((
            (1, Arc::new(Just(StackTransition::PopEmpty))),
            (2, Arc::new(any::<i32>().prop_map(StackTransition::Push))),
        ))
        .boxed()
    } else {
        TupleUnion::new((
            (1, Arc::new(Just(StackTransition::PopNonEmpty))),
            (2, Arc::new(any::<i32>().prop_map(StackTransition::Push))),
        ))
        .boxed()
    }
}

fn generate(size: usize, runner: &mut TestRunner) -> TestValueTree {
    let sequential = Sequential::new(size, size);
    let initial = Tree(init_state().new_tree(runner).unwrap());
    let mut generation = sequential.start(initial, runner);
    while !generation.is_complete() {
        let tree = Tree(transitions(generation.state()).new_tree(runner).unwrap());
        generation.offer(tree, runner).unwrap();
    }
    generation.finish()
}

fn deterministic_sequential_value_tree() -> TestValueTree {
    let mut runner = TestRunner::deterministic();
    generate(TRANSITIONS, &mut runner)
}

fn check_preconditions(value_tree: &TestValueTree) {
    let (mut state, transitions) = value_tree.current();
    for transition in transitions.iter() {
        assert!(StackMachine::preconditions(&state, transition));
        state = StackMachine::apply(state, transition);
    }
}

fn run_with_complications(complicate_ixs: &[usize]) {
    let mut value_tree = deterministic_sequential_value_tree();
    let mut ix = 0_usize;
    loop {
        let simplified = value_tree.simplify();
        check_preconditions(&value_tree);
        if !simplified {
            break;
        }
        ix += 1;
        if complicate_ixs.contains(&ix) {
            loop {
                let complicated = value_tree.complicate();
                check_preconditions(&value_tree);
                if !complicated {
                    break;
                }
            }
        }
    }
}

#[test]
fn number_of_sequential_value_tree_simplifications() {
    let mut value_tree = deterministic_sequential_value_tree();

    let mut i = 0;
    loop {
        let simplified = value_tree.simplify();
        if simplified {
            i += 1;
        } else {
            break;
        }
    }
    assert_eq!(i, SIMPLIFICATIONS);
}

#[test]
fn generated_sequence_satisfies_preconditions() {
    let value_tree = deterministic_sequential_value_tree();
    let (state, transitions) = value_tree.current();
    assert_eq!(state, Vec::<i32>::new());
    assert_eq!(transitions.len(), TRANSITIONS);
    check_preconditions(&value_tree);
}

#[test]
fn generation_is_deterministic() {
    let a = deterministic_sequential_value_tree().current();
    let b = deterministic_sequential_value_tree().current();
    assert_eq!(a, b);
}

#[test]
fn every_shrink_step_satisfies_preconditions() {
    let mut value_tree = deterministic_sequential_value_tree();
    let mut steps = 0;
    while value_tree.simplify() {
        check_preconditions(&value_tree);
        steps += 1;
    }
    check_preconditions(&value_tree);
    assert_eq!(steps, SIMPLIFICATIONS);
}

#[test]
fn interleaved_simplify_and_complicate() {
    run_with_complications(&[]);
    run_with_complications(&[1]);
    run_with_complications(&[1, 2, 3]);
    run_with_complications(&[5, 17, 31]);
    run_with_complications(&(0..SIMPLIFICATIONS).collect::<Vec<_>>());
}

#[test]
fn deletions_precede_content_changes() {
    let mut value_tree = deterministic_sequential_value_tree();
    let mut seen_change = false;
    let (_, mut before) = value_tree.current();
    while value_tree.simplify() {
        let (_, after) = value_tree.current();
        if after.len() < before.len() {
            assert!(!seen_change);
        } else {
            assert_eq!(after.len(), before.len());
            assert_ne!(after, before);
            seen_change = true;
        }
        before = after;
    }
}

#[test]
fn complicate_restores_a_deletion() {
    let mut value_tree = deterministic_sequential_value_tree();
    let mut restored = 0;
    loop {
        let before = value_tree.current();
        if !value_tree.simplify() {
            break;
        }
        let after = value_tree.current();
        if after.1.len() < before.1.len() {
            assert!(value_tree.complicate());
            assert_eq!(value_tree.current(), before);
            restored += 1;
            break;
        }
    }
    assert_eq!(restored, 1);
}

#[test]
fn complicate_without_a_shrink_fails() {
    let mut value_tree = deterministic_sequential_value_tree();
    let before = value_tree.current();
    assert!(!value_tree.complicate());
    assert_eq!(value_tree.current(), before);
}

#[test]
fn rejected_transition_on_empty_stack() {
    let mut runner = TestRunner::deterministic();
    let sequential = Sequential::new(1, 1);
    let mut generation: proptest_state_machine::Generation<
        StackMachine,
        Fixed<Vec<i32>>,
        Fixed<StackTransition>,
    > = sequential.start(Fixed(vec![]), &mut runner);
    generation
        .offer(Fixed(StackTransition::PopNonEmpty), &mut runner)
        .unwrap();
    assert!(!generation.is_complete());
    assert!(format!("{}", runner).contains("local rejects: 1\n"));
    generation
        .offer(Fixed(StackTransition::Push(7)), &mut runner)
        .unwrap();
    assert!(generation.is_complete());
    assert_eq!(generation.state(), &vec![7]);
    let value_tree = generation.finish();
    assert_eq!(value_tree.current(), (vec![], vec![StackTransition::Push(7)]));
}

#[test]
fn too_many_rejections_fail_generation() {
    let mut runner = TestRunner::new(Config {
        max_local_rejects: 0,
        ..Config::default()
    });
    let sequential = Sequential::new(1, 1);
    let mut generation: proptest_state_machine::Generation<
        StackMachine,
        Fixed<Vec<i32>>,
        Fixed<StackTransition>,
    > = sequential.start(Fixed(vec![]), &mut runner);
    let result = generation.offer(Fixed(StackTransition::PopNonEmpty), &mut runner);
    assert!(result.is_err());
    assert!(!generation.is_complete());
}

#[test]
fn empty_size_range_yields_empty_sequence() {
    let mut runner = TestRunner::deterministic();
    let mut value_tree = generate(0, &mut runner);
    assert_eq!(value_tree.current(), (vec![], vec![]));
    assert!(!value_tree.simplify());
    assert!(!value_tree.complicate());
}

#[test]
fn sampled_size_lies_in_range() {
    let mut runner = TestRunner::deterministic();
    let sequential = Sequential::new(3, 9);
    assert_eq!(sequential.size(), (3, 9));
    let mut lengths = Vec::new();
    for _ in 0..20 {
        let generation: proptest_state_machine::Generation<
            StackMachine,
            Fixed<Vec<i32>>,
            Fixed<StackTransition>,
        > = sequential.start(Fixed(vec![]), &mut runner);
        assert!(generation.state().is_empty());
        let mut value_tree = generation;
        let mut n = 0;
        while !value_tree.is_complete() {
            value_tree
                .offer(Fixed(StackTransition::Push(n)), &mut runner)
                .unwrap();
            n += 1;
        }
        assert!((3..=9).contains(&(n as usize)));
        lengths.push(n);
    }
    assert!(lengths.iter().any(|&n| n != lengths[0]));
}

#[test]
fn offered_transition_is_kept_when_allowed() {
    let mut runner = TestRunner::deterministic();
    let sequential = Sequential::new(2, 2);
    let mut generation: proptest_state_machine::Generation<
        StackMachine,
        Fixed<Vec<i32>>,
        Fixed<StackTransition>,
    > = sequential.start(Fixed(vec![5]), &mut runner);
    generation
        .offer_transition(Fixed(StackTransition::PopEmpty), StackTransition::PopEmpty, &mut runner)
        .unwrap();
    assert_eq!(generation.state(), &vec![5]);
    generation
        .offer_transition(
            Fixed(StackTransition::PopNonEmpty),
            StackTransition::PopNonEmpty,
            &mut runner,
        )
        .unwrap();
    assert_eq!(generation.state(), &Vec::<i32>::new());
    generation
        .offer_transition(Fixed(StackTransition::PopEmpty), StackTransition::PopEmpty, &mut runner)
        .unwrap();
    assert!(generation.is_complete());
    let value_tree = generation.finish();
    assert_eq!(
        value_tree.current(),
        (
            vec![5],
            vec![StackTransition::PopNonEmpty, StackTransition::PopEmpty]
        )
    );
}

#[test]
fn sequence_check_follows_preconditions() {
    let ok = vec![
        StackTransition::PopEmpty,
        StackTransition::Push(1),
        StackTransition::PopNonEmpty,
        StackTransition::PopEmpty,
    ];
    assert!(check_sequence::<StackMachine>(&vec![], &ok));
    let bad = vec![StackTransition::Push(1), StackTransition::PopEmpty];
    assert!(!check_sequence::<StackMachine>(&vec![], &bad));
    assert!(!check_sequence::<StackMachine>(&vec![], &vec![StackTransition::PopNonEmpty]));
    assert!(check_sequence::<StackMachine>(&vec![4], &vec![StackTransition::PopNonEmpty]));
    assert!(check_sequence::<StackMachine>(&vec![], &vec![]));
}

#[test]
fn stack_model_applies_transitions() {
    assert_eq!(StackMachine::apply(vec![1], &StackTransition::Push(2)), vec![1, 2]);
    assert_eq!(StackMachine::apply(vec![1, 2], &StackTransition::PopNonEmpty), vec![1]);
    assert_eq!(StackMachine::apply(vec![], &StackTransition::PopEmpty), Vec::<i32>::new());
    assert!(StackMachine::preconditions(&vec![], &StackTransition::PopEmpty));
    assert!(!StackMachine::preconditions(&vec![1], &StackTransition::PopEmpty));
    assert!(!StackMachine::preconditions(&vec![], &StackTransition::PopNonEmpty));
    assert!(StackMachine::preconditions(&vec![], &StackTransition::Push(-3)));
}

#[test]
fn fresh_tree_deletes_from_the_back() {
    let mut value_tree = deterministic_sequential_value_tree();
    let (s0, ts0) = value_tree.current();
    for k in 1..=ts0.len() {
        assert!(value_tree.simplify());
        assert_eq!(value_tree.current(), (s0.clone(), ts0[..ts0.len() - k].to_vec()));
    }
}
