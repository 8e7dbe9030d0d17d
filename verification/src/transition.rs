use vstd::prelude::*;

verus! {

/// A transformation of a full state `S` that reads and writes only a
/// projection of it.
///
/// `strip` reduces the state to the projection, `partial_call` computes on the
/// projection, and `merge` folds the projection result back into the state.
/// The trait demands nothing of an implementation; what is known of a call is
/// what the implementation itself states, and the relations below speak of it.
pub trait PartialStateTransition<S, Args> {
    type Striped;

    fn strip(input: S) -> Self::Striped;

    fn partial_call(input: Self::Striped, args: Args) -> Self::Striped;

    fn merge(input: S, result: Self::Striped) -> S;
}

/// `striped` is a projection that `T::strip` can return for `input`.
pub open spec fn strips_to<T, S, Args>(input: S, striped: T::Striped) -> bool where
    T: PartialStateTransition<S, Args>,
 {
    call_ensures(T::strip, (input,), striped)
}

/// `result` is a projection that `T::partial_call` can return for `input` and
/// `args`.
pub open spec fn computes_to<T, S, Args>(input: T::Striped, args: Args, result: T::Striped) -> bool where
    T: PartialStateTransition<S, Args>,
 {
    call_ensures(T::partial_call, (input, args), result)
}

/// `merged` is a state that `T::merge` can return for `input` and `result`.
pub open spec fn merges_to<T, S, Args>(input: S, result: T::Striped, merged: S) -> bool where
    T: PartialStateTransition<S, Args>,
 {
    call_ensures(T::merge, (input, result), merged)
}

/// `result` is a state that one application of `T` to `start` with `args` can
/// give: strip, compute on the projection, merge into `start`.
pub open spec fn applies_to<T, S, Args>(start: S, args: Args, result: S) -> bool where
    T: PartialStateTransition<S, Args>,
 {
    exists|striped: T::Striped, partial: T::Striped|
        {
            &&& strips_to::<T, S, Args>(start, striped)
            &&& #[trigger] computes_to::<T, S, Args>(striped, args, partial)
            &&& merges_to::<T, S, Args>(start, partial, result)
        }
}

/// Whether each of the three operations of `T` can return only one value for
/// given inputs, so that it is a function of them.
pub open spec fn is_pure<T, S, Args>() -> bool where T: PartialStateTransition<S, Args> {
    &&& forall|input: S, a: T::Striped, b: T::Striped|
        #![trigger strips_to::<T, S, Args>(input, a), strips_to::<T, S, Args>(input, b)]
        strips_to::<T, S, Args>(input, a) && strips_to::<T, S, Args>(input, b) ==> a == b
    &&& forall|input: T::Striped, args: Args, a: T::Striped, b: T::Striped|
        #![trigger computes_to::<T, S, Args>(input, args, a), computes_to::<T, S, Args>(input, args, b)]
        computes_to::<T, S, Args>(input, args, a) && computes_to::<T, S, Args>(input, args, b)
            ==> a == b
    &&& forall|input: S, result: T::Striped, a: S, b: S|
        #![trigger merges_to::<T, S, Args>(input, result, a), merges_to::<T, S, Args>(input, result, b)]
        merges_to::<T, S, Args>(input, result, a) && merges_to::<T, S, Args>(input, result, b)
            ==> a == b
}

/// Whether `merge` of `T` leaves what `observe` reads of a state as it was,
/// whatever projection result is merged in.
pub open spec fn merge_keeps<T, S, Args, B>(observe: spec_fn(S) -> B) -> bool where
    T: PartialStateTransition<S, Args>,
 {
    forall|input: S, result: T::Striped, merged: S| #[trigger]
        merges_to::<T, S, Args>(input, result, merged) ==> observe(merged) == observe(input)
}

/// Whether `clone` on `X` always hands back a value equal to the one cloned.
pub open spec fn clone_is_exact<X: Clone>() -> bool {
    forall|a: X, b: X| #[trigger] call_ensures(X::clone, (&a,), b) ==> a == b
}

/// Applies `T` once to `start`, with nothing stored or reused.
pub fn apply<T, S, Args>(start: S, args: Args) -> (result: S) where
    T: PartialStateTransition<S, Args>,
    S: Clone,

    requires
        clone_is_exact::<S>(),
    ensures
        applies_to::<T, S, Args>(start, args, result),
{
    let striped = T::strip(start.clone());
    let partial = T::partial_call(striped, args);
    let result = T::merge(start, partial);
    assert(computes_to::<T, S, Args>(striped, args, partial));
    result
}

/// A pure transition gives one result: two applications to the same state
/// with the same arguments return the same state.
pub proof fn lemma_apply_is_deterministic<T, S, Args>(start: S, args: Args, first: S, second: S) where
    T: PartialStateTransition<S, Args>,

    requires
        is_pure::<T, S, Args>(),
        applies_to::<T, S, Args>(start, args, first),
        applies_to::<T, S, Args>(start, args, second),
    ensures
        first == second,
{
}

/// What `merge` leaves untouched, an application leaves untouched: a part of
/// the state outside the projection reads the same before and after.
pub proof fn lemma_apply_keeps_untouched<T, S, Args, B>(
    observe: spec_fn(S) -> B,
    start: S,
    args: Args,
    result: S,
) where T: PartialStateTransition<S, Args>
    requires
        merge_keeps::<T, S, Args, B>(observe),
        applies_to::<T, S, Args>(start, args, result),
    ensures
        observe(result) == observe(start),
{
}

} // verus!
