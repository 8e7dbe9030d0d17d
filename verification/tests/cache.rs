use std::sync::atomic::{AtomicUsize, Ordering};
use transition_cache::{PartialStateTransition, TransitionCache};

#[derive(Clone, PartialEq, Eq, Debug, Hash)]
struct Example {
    field_usize: usize,
    field_bool: bool,
}

impl Example {
    fn new(field_usize: usize, field_bool: bool) -> Self {
        Example {
            field_usize,
            field_bool,
        }
    }
}

enum IsEven {}

impl PartialStateTransition<Example, ()> for IsEven {
    type Striped = Example;

    fn strip(input: Example) -> Self::Striped {
        input
    }

    fn partial_call(mut input: Self::Striped, _args: ()) -> Self::Striped {
        input.field_bool = input.field_usize % 2 == 0;
        input
    }

    fn merge(_input: Example, result: Self::Striped) -> Example {
        result
    }
}

#[test]
fn can_apply_transition_on_cache() {
    let mut cache = TransitionCache::<IsEven, _, _>::new();

    let start = Example::new(42, false);

    let res = cache.apply_transition(start, ());

    assert_eq!(Example::new(42, true), res);
}

#[test]
fn cached_transition_is_only_called_once() {
    static COUNT: AtomicUsize = AtomicUsize::new(0);

    enum IsEven {}

    impl PartialStateTransition<Example, ()> for IsEven {
        type Striped = Example;

        fn strip(input: Example) -> Self::Striped {
            input
        }

        fn partial_call(mut input: Self::Striped, _args: ()) -> Self::Striped {
            COUNT.fetch_add(1, Ordering::SeqCst);
            input.field_bool = input.field_usize % 2 == 0;
            input
        }

        fn merge(_input: Example, result: Self::Striped) -> Example {
            result
        }
    }

    let mut cache = TransitionCache::<IsEven, _, _>::new();

    let start = Example::new(42, false);

    cache.apply_transition(start.clone(), ());
    let res = cache.apply_transition(start, ());

    assert_eq!(Example::new(42, true), res);
    assert_eq!(1, COUNT.load(Ordering::SeqCst));
}

enum SetNumber {}

impl PartialStateTransition<Example, usize> for SetNumber {
    type Striped = usize;

    fn strip(input: Example) -> Self::Striped {
        input.field_usize
    }

    fn partial_call(_input: Self::Striped, args: usize) -> Self::Striped {
        args
    }

    fn merge(mut input: Example, result: Self::Striped) -> Example {
        input.field_usize = result;

        input
    }
}

#[test]
fn can_use_transition_on_different_starts() {
    let mut cache = TransitionCache::<IsEven, _, _>::new();

    let start1 = Example::new(42, false);
    let start2 = Example::new(43, true);

    let res1 = cache.apply_transition(start1, ());
    let res2 = cache.apply_transition(start2, ());

    assert_eq!(Example::new(42, true), res1);
    assert_eq!(Example::new(43, false), res2);
}

#[test]
fn transition_with_only_some_fields() {
    let mut cache = TransitionCache::<SetNumber, _, _>::new();

    let start = Example::new(42, false);

    let res = cache.apply_transition(start, 38);

    assert_eq!(Example::new(38, false), res);
}

#[test]
fn partial_transition() {
    static COUNT: AtomicUsize = AtomicUsize::new(0);

    enum SetNumber {}

    impl PartialStateTransition<Example, usize> for SetNumber {
        type Striped = usize;

        fn strip(input: Example) -> Self::Striped {
            input.field_usize
        }

        fn partial_call(_input: Self::Striped, args: usize) -> Self::Striped {
            COUNT.fetch_add(1, Ordering::SeqCst);
            args
        }

        fn merge(mut input: Example, result: Self::Striped) -> Example {
            input.field_usize = result;

            input
        }
    }

    let mut cache = TransitionCache::<SetNumber, _, _>::new();

    cache.apply_transition(Example::new(42, true), 1);
    cache.apply_transition(Example::new(42, false), 1);

    assert_eq!(1, COUNT.load(Ordering::SeqCst));
}

#[test]
fn new_cache_stores_nothing() {
    let cache = TransitionCache::<SetNumber, Example, usize>::new();

    assert_eq!(0, cache.len());
}

#[test]
fn repeated_calls_give_the_same_state() {
    let mut cache = TransitionCache::<IsEven, _, _>::new();

    let first = cache.apply_transition(Example::new(7, true), ());
    let second = cache.apply_transition(Example::new(7, true), ());
    let third = cache.apply_transition(Example::new(7, true), ());

    assert_eq!(Example::new(7, false), first);
    assert_eq!(first, second);
    assert_eq!(second, third);
}

#[test]
fn untouched_field_is_kept() {
    let mut cache = TransitionCache::<SetNumber, _, _>::new();

    let kept_true = cache.apply_transition(Example::new(1, true), 5);
    let kept_false = cache.apply_transition(Example::new(1, false), 5);

    assert_eq!(Example::new(5, true), kept_true);
    assert_eq!(Example::new(5, false), kept_false);
}

#[test]
fn same_key_is_computed_once_however_often_called() {
    static COUNT: AtomicUsize = AtomicUsize::new(0);

    enum Counted {}

    impl PartialStateTransition<Example, usize> for Counted {
        type Striped = usize;

        fn strip(input: Example) -> Self::Striped {
            input.field_usize
        }

        fn partial_call(input: Self::Striped, args: usize) -> Self::Striped {
            COUNT.fetch_add(1, Ordering::SeqCst);
            input + args
        }

        fn merge(mut input: Example, result: Self::Striped) -> Example {
            input.field_usize = result;
            input
        }
    }

    let mut cache = TransitionCache::<Counted, _, _>::new();

    for _ in 0..10 {
        let res = cache.apply_transition(Example::new(3, true), 4);
        assert_eq!(Example::new(7, true), res);
        assert_eq!(1, COUNT.load(Ordering::SeqCst));
        assert_eq!(1, cache.len());
    }
}

#[test]
fn equal_projections_share_one_entry() {
    static COUNT: AtomicUsize = AtomicUsize::new(0);

    enum Counted {}

    impl PartialStateTransition<Example, usize> for Counted {
        type Striped = usize;

        fn strip(input: Example) -> Self::Striped {
            input.field_usize
        }

        fn partial_call(input: Self::Striped, args: usize) -> Self::Striped {
            COUNT.fetch_add(1, Ordering::SeqCst);
            input * args
        }

        fn merge(mut input: Example, result: Self::Striped) -> Example {
            input.field_usize = result;
            input
        }
    }

    let mut cache = TransitionCache::<Counted, _, _>::new();

    let res1 = cache.apply_transition(Example::new(6, true), 7);
    let res2 = cache.apply_transition(Example::new(6, false), 7);

    assert_eq!(Example::new(42, true), res1);
    assert_eq!(Example::new(42, false), res2);
    assert_eq!(1, COUNT.load(Ordering::SeqCst));
    assert_eq!(1, cache.len());
}

#[test]
fn distinct_keys_are_computed_once_each() {
    static COUNT: AtomicUsize = AtomicUsize::new(0);

    enum Counted {}

    impl PartialStateTransition<Example, usize> for Counted {
        type Striped = usize;

        fn strip(input: Example) -> Self::Striped {
            input.field_usize
        }

        fn partial_call(input: Self::Striped, args: usize) -> Self::Striped {
            COUNT.fetch_add(1, Ordering::SeqCst);
            input + args
        }

        fn merge(mut input: Example, result: Self::Striped) -> Example {
            input.field_usize = result;
            input
        }
    }

    let mut cache = TransitionCache::<Counted, _, _>::new();

    // Same projection, different arguments.
    assert_eq!(Example::new(11, false), cache.apply_transition(Example::new(10, false), 1));
    assert_eq!(Example::new(12, false), cache.apply_transition(Example::new(10, false), 2));
    assert_eq!(2, COUNT.load(Ordering::SeqCst));
    assert_eq!(2, cache.len());

    // Same arguments, different projection.
    assert_eq!(Example::new(21, false), cache.apply_transition(Example::new(20, false), 1));
    assert_eq!(3, COUNT.load(Ordering::SeqCst));
    assert_eq!(3, cache.len());

    // Each of the three keys again: nothing is computed, nothing is stored.
    assert_eq!(Example::new(11, true), cache.apply_transition(Example::new(10, true), 1));
    assert_eq!(Example::new(12, true), cache.apply_transition(Example::new(10, true), 2));
    assert_eq!(Example::new(21, true), cache.apply_transition(Example::new(20, true), 1));
    assert_eq!(3, COUNT.load(Ordering::SeqCst));
    assert_eq!(3, cache.len());
}

#[test]
fn identity_projection_misses_when_any_field_differs() {
    static COUNT: AtomicUsize = AtomicUsize::new(0);

    enum IsEven {}

    impl PartialStateTransition<Example, ()> for IsEven {
        type Striped = Example;

        fn strip(input: Example) -> Self::Striped {
            input
        }

        fn partial_call(mut input: Self::Striped, _args: ()) -> Self::Striped {
            COUNT.fetch_add(1, Ordering::SeqCst);
            input.field_bool = input.field_usize % 2 == 0;
            input
        }

        fn merge(_input: Example, result: Self::Striped) -> Example {
            result
        }
    }

    let mut cache = TransitionCache::<IsEven, _, _>::new();

    let res1 = cache.apply_transition(Example::new(42, false), ());
    let res2 = cache.apply_transition(Example::new(42, true), ());

    assert_eq!(Example::new(42, true), res1);
    assert_eq!(Example::new(42, true), res2);
    assert_eq!(2, COUNT.load(Ordering::SeqCst));
    assert_eq!(2, cache.len());
}

#[test]
fn stored_result_is_reused_as_it_is() {
    static COUNT: AtomicUsize = AtomicUsize::new(0);

    // Its computation gives another result on every call, so a reused result
    // can be told from a computed one.
    enum Ticking {}

    impl PartialStateTransition<Example, usize> for Ticking {
        type Striped = usize;

        fn strip(input: Example) -> Self::Striped {
            input.field_usize
        }

        fn partial_call(input: Self::Striped, args: usize) -> Self::Striped {
            input + args + COUNT.fetch_add(1, Ordering::SeqCst)
        }

        fn merge(mut input: Example, result: Self::Striped) -> Example {
            input.field_usize = result;
            input
        }
    }

    let mut cache = TransitionCache::<Ticking, _, _>::new();

    assert_eq!(Example::new(105, false), cache.apply_transition(Example::new(100, false), 5));
    assert_eq!(Example::new(105, true), cache.apply_transition(Example::new(100, true), 5));
    assert_eq!(Example::new(107, true), cache.apply_transition(Example::new(100, true), 6));
    assert_eq!(Example::new(105, false), cache.apply_transition(Example::new(100, false), 5));
}

#[test]
fn caches_do_not_share_entries() {
    static COUNT: AtomicUsize = AtomicUsize::new(0);

    enum Counted {}

    impl PartialStateTransition<Example, usize> for Counted {
        type Striped = usize;

        fn strip(input: Example) -> Self::Striped {
            input.field_usize
        }

        fn partial_call(_input: Self::Striped, args: usize) -> Self::Striped {
            COUNT.fetch_add(1, Ordering::SeqCst);
            args
        }

        fn merge(mut input: Example, result: Self::Striped) -> Example {
            input.field_usize = result;
            input
        }
    }

    let mut one = TransitionCache::<Counted, _, _>::new();
    let mut other = TransitionCache::<Counted, _, _>::new();

    one.apply_transition(Example::new(1, true), 9);
    other.apply_transition(Example::new(1, true), 9);

    assert_eq!(2, COUNT.load(Ordering::SeqCst));
    assert_eq!(1, one.len());
    assert_eq!(1, other.len());
}
