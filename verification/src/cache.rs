use crate::table::{cached_step, cached_step_via, lemma_step_is_an_application, sound};
use crate::transition::{applies_to, clone_is_exact, PartialStateTransition};
use std::collections::hash_map::Entry;
use std::collections::HashMap;
use std::hash::Hash;
use std::marker::PhantomData;
use vstd::prelude::*;
use vstd::std_specs::hash::obeys_key_model;

verus! {

/// What the types of a memo table must offer: a key is found again exactly
/// under an equal key, and a clone equals what it was cloned from.
pub open spec fn memoizable<T, S, Args>() -> bool where
    T: PartialStateTransition<S, Args>,
    S: Clone,
    T::Striped: Clone,
    Args: Clone,
 {
    &&& obeys_key_model::<(T::Striped, Args)>()
    &&& clone_is_exact::<S>()
    &&& clone_is_exact::<T::Striped>()
    &&& clone_is_exact::<Args>()
}

/// A memo table for the computation step of one transition `T`.
pub struct TransitionCache<T, S, Args> where T: PartialStateTransition<S, Args> {
    transition: PhantomData<T>,
    cache: HashMap<(T::Striped, Args), T::Striped>,
}

impl<T, S, Args> TransitionCache<T, S, Args> where T: PartialStateTransition<S, Args> {
    /// The stored results: from (projection, arguments) to projection result.
    pub closed spec fn view(&self) -> Map<(T::Striped, Args), T::Striped> {
        self.cache@
    }

    /// The table is finite, and every stored result is one that the
    /// transition can compute for its key.
    pub open spec fn well_formed(&self) -> bool {
        &&& self@.dom().finite()
        &&& sound::<T, S, Args>(self@)
    }

    /// A cache that stores nothing.
    pub fn new() -> (cache: Self)
        ensures
            cache.well_formed(),
            cache@ == Map::<(T::Striped, Args), T::Striped>::empty(),
    {
        TransitionCache { transition: PhantomData, cache: HashMap::new() }
    }

    /// The number of stored results, which is the number of computations
    /// made through this cache so far.
    pub fn len(&self) -> (n: usize) where T::Striped: Eq + Hash, Args: Eq + Hash
        requires
            obeys_key_model::<(T::Striped, Args)>(),
        ensures
            n == self@.len(),
    {
        self.cache.len()
    }

    /// Applies `T` to `start` with `args`, computing on the projection only
    /// where no result is stored for the projection and the arguments, and
    /// storing what was computed.
    pub fn apply_transition(&mut self, start: S, args: Args) -> (result: S) where
        S: Clone,
        T::Striped: Clone + Eq + Hash,
        Args: Clone + Eq + Hash,

        requires
            old(self).well_formed(),
            memoizable::<T, S, Args>(),
        ensures
            final(self).well_formed(),
            cached_step::<T, S, Args>(old(self)@, start, args, final(self)@, result),
            applies_to::<T, S, Args>(start, args, result),
    {
        let striped = T::strip(start.clone());
        let res_unmerged = match self.cache.entry((striped.clone(), args.clone())) {
            Entry::Occupied(e) => e.get().clone(),
            Entry::Vacant(e) => {
                // The computation runs only for a key that is not stored.
                assert(!old(self)@.contains_key((striped, args)));
                let res = T::partial_call(striped, args);
                e.insert(res.clone());
                res
            },
        };
        let result = T::merge(start, res_unmerged);
        proof {
            assert(cached_step_via::<T, S, Args>(
                old(self)@,
                start,
                args,
                striped,
                res_unmerged,
                self@,
                result,
            ));
            lemma_step_is_an_application::<T, S, Args>(old(self)@, start, args, self@, result);
        }
        result
    }
}

} // verus!
