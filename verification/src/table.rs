use crate::transition::{
    applies_to, computes_to, is_pure, merge_keeps, merges_to, strips_to, PartialStateTransition,
};
use vstd::prelude::*;

verus! {

/// Every stored result is one that the transition can compute for its key.
pub open spec fn sound<T, S, Args>(table: Map<(T::Striped, Args), T::Striped>) -> bool where
    T: PartialStateTransition<S, Args>,
 {
    forall|k: (T::Striped, Args)| #[trigger]
        table.contains_key(k) ==> computes_to::<T, S, Args>(k.0, k.1, table[k])
}

/// One application of `T` to `start` with `args` through a memo table, with
/// the projection `striped` and the projection result `partial` that it went
/// through: `before` is the table when the call begins, `after` the table
/// when it ends, `result` the state returned.
///
/// The projection result is taken from the table where the key is stored and
/// computed otherwise; either way it stands under the key afterwards.
pub open spec fn cached_step_via<T, S, Args>(
    before: Map<(T::Striped, Args), T::Striped>,
    start: S,
    args: Args,
    striped: T::Striped,
    partial: T::Striped,
    after: Map<(T::Striped, Args), T::Striped>,
    result: S,
) -> bool where T: PartialStateTransition<S, Args> {
    &&& strips_to::<T, S, Args>(start, striped)
    &&& if before.contains_key((striped, args)) {
        partial == before[(striped, args)]
    } else {
        computes_to::<T, S, Args>(striped, args, partial)
    }
    &&& after == before.insert((striped, args), partial)
    &&& merges_to::<T, S, Args>(start, partial, result)
}

/// One application of `T` to `start` with `args` through a memo table that
/// holds `before` when the call begins and `after` when it ends, returning
/// `result`.
pub open spec fn cached_step<T, S, Args>(
    before: Map<(T::Striped, Args), T::Striped>,
    start: S,
    args: Args,
    after: Map<(T::Striped, Args), T::Striped>,
    result: S,
) -> bool where T: PartialStateTransition<S, Args> {
    exists|striped: T::Striped, partial: T::Striped| #[trigger]
        cached_step_via::<T, S, Args>(before, start, args, striped, partial, after, result)
}

/// A call through a sound table leaves the table sound, and returns a state
/// that an application with nothing stored can return as well.
pub proof fn lemma_step_is_an_application<T, S, Args>(
    before: Map<(T::Striped, Args), T::Striped>,
    start: S,
    args: Args,
    after: Map<(T::Striped, Args), T::Striped>,
    result: S,
) where T: PartialStateTransition<S, Args>
    requires
        sound::<T, S, Args>(before),
        cached_step::<T, S, Args>(before, start, args, after, result),
    ensures
        sound::<T, S, Args>(after),
        applies_to::<T, S, Args>(start, args, result),
{
    let (striped, partial) = choose|striped: T::Striped, partial: T::Striped| #[trigger]
        cached_step_via::<T, S, Args>(before, start, args, striped, partial, after, result);
    assert(computes_to::<T, S, Args>(striped, args, partial));
}

/// A table that stores nothing adds nothing: the states that a call through
/// it can return are those that an application with nothing stored can
/// return.
pub proof fn lemma_empty_table_is_no_table<T, S, Args>(start: S, args: Args, result: S) where
    T: PartialStateTransition<S, Args>,

    ensures
        applies_to::<T, S, Args>(start, args, result) <==> exists|
            after: Map<(T::Striped, Args), T::Striped>,
        | #[trigger]
            cached_step::<T, S, Args>(Map::empty(), start, args, after, result),
{
    let empty = Map::<(T::Striped, Args), T::Striped>::empty();
    if applies_to::<T, S, Args>(start, args, result) {
        let (striped, partial) = choose|striped: T::Striped, partial: T::Striped|
            {
                &&& strips_to::<T, S, Args>(start, striped)
                &&& #[trigger] computes_to::<T, S, Args>(striped, args, partial)
                &&& merges_to::<T, S, Args>(start, partial, result)
            };
        let after = empty.insert((striped, args), partial);
        assert(cached_step_via::<T, S, Args>(empty, start, args, striped, partial, after, result));
        assert(cached_step::<T, S, Args>(empty, start, args, after, result));
    }
    if exists|after: Map<(T::Striped, Args), T::Striped>| #[trigger]
        cached_step::<T, S, Args>(empty, start, args, after, result) {
        let after = choose|after: Map<(T::Striped, Args), T::Striped>| #[trigger]
            cached_step::<T, S, Args>(empty, start, args, after, result);
        lemma_step_is_an_application::<T, S, Args>(empty, start, args, after, result);
    }
}

/// With a pure transition the table makes no difference to the result: two
/// calls on the same state with the same arguments return the same state,
/// whatever the two sound tables hold.
pub proof fn lemma_step_is_deterministic<T, S, Args>(
    before1: Map<(T::Striped, Args), T::Striped>,
    before2: Map<(T::Striped, Args), T::Striped>,
    start: S,
    args: Args,
    after1: Map<(T::Striped, Args), T::Striped>,
    after2: Map<(T::Striped, Args), T::Striped>,
    result1: S,
    result2: S,
) where T: PartialStateTransition<S, Args>
    requires
        is_pure::<T, S, Args>(),
        sound::<T, S, Args>(before1),
        sound::<T, S, Args>(before2),
        cached_step::<T, S, Args>(before1, start, args, after1, result1),
        cached_step::<T, S, Args>(before2, start, args, after2, result2),
    ensures
        result1 == result2,
{
    lemma_step_is_an_application::<T, S, Args>(before1, start, args, after1, result1);
    lemma_step_is_an_application::<T, S, Args>(before2, start, args, after2, result2);
}

/// What `merge` leaves untouched, a call through a table leaves untouched,
/// whatever the table holds.
pub proof fn lemma_step_keeps_untouched<T, S, Args, B>(
    observe: spec_fn(S) -> B,
    before: Map<(T::Striped, Args), T::Striped>,
    start: S,
    args: Args,
    after: Map<(T::Striped, Args), T::Striped>,
    result: S,
) where T: PartialStateTransition<S, Args>
    requires
        merge_keeps::<T, S, Args, B>(observe),
        cached_step::<T, S, Args>(before, start, args, after, result),
    ensures
        observe(result) == observe(start),
{
}

/// A call stores its key and takes nothing away: afterwards the table holds
/// the keys it held and the key of the call, every entry it held is
/// unchanged, and a call whose key was stored leaves the table as it was.
pub proof fn lemma_step_only_adds<T, S, Args>(
    before: Map<(T::Striped, Args), T::Striped>,
    start: S,
    args: Args,
    striped: T::Striped,
    partial: T::Striped,
    after: Map<(T::Striped, Args), T::Striped>,
    result: S,
) where T: PartialStateTransition<S, Args>
    requires
        cached_step_via::<T, S, Args>(before, start, args, striped, partial, after, result),
    ensures
        after.dom() == before.dom().insert((striped, args)),
        before.submap_of(after),
        before.contains_key((striped, args)) ==> after == before,
{
    assert(after.dom() =~= before.dom().insert((striped, args)));
    if before.contains_key((striped, args)) {
        assert(after =~= before);
    }
}

/// The number of computations that calls with the keys `keys`, made in this
/// order, cause on a table that stores the keys `stored` before the first:
/// a call computes exactly when its key is not stored, and stores it.
pub open spec fn misses_from<K>(stored: Set<K>, keys: Seq<K>) -> nat
    decreases keys.len(),
{
    if keys.len() == 0 {
        0
    } else {
        let rest = misses_from(stored.insert(keys.first()), keys.drop_first());
        if stored.contains(keys.first()) {
            rest
        } else {
            rest + 1
        }
    }
}

/// Calls that all have the key `key` cause one computation where the key is
/// not stored before the first, and none where it is, however many they are.
pub proof fn lemma_same_key_computes_once<K>(stored: Set<K>, keys: Seq<K>, key: K)
    requires
        keys.len() >= 1,
        forall|i: int| 0 <= i < keys.len() ==> keys[i] == key,
    ensures
        misses_from(stored, keys) == if stored.contains(key) {
            0nat
        } else {
            1nat
        },
    decreases keys.len(),
{
    let rest = keys.drop_first();
    assert(keys.first() == key);
    if rest.len() == 0 {
        assert(misses_from(stored.insert(key), rest) == 0);
    } else {
        assert forall|i: int| 0 <= i < rest.len() implies rest[i] == key by {
            assert(rest[i] == keys[i + 1]);
        }
        lemma_same_key_computes_once(stored.insert(key), rest, key);
    }
}

/// Calls cause one computation for each distinct key among them that is not
/// stored before the first.
pub proof fn lemma_computes_once_per_key<K>(stored: Set<K>, keys: Seq<K>)
    ensures
        keys.to_set().difference(stored).finite(),
        misses_from(stored, keys) == keys.to_set().difference(stored).len(),
    decreases keys.len(),
{
    vstd::seq_lib::seq_to_set_is_finite(keys);
    if keys.len() == 0 {
        assert(keys.to_set().difference(stored) =~= Set::<K>::empty());
    } else {
        let key = keys.first();
        let rest = keys.drop_first();
        lemma_computes_once_per_key(stored.insert(key), rest);
        let fresh = rest.to_set().difference(stored.insert(key));
        assert(keys.to_set() =~= rest.to_set().insert(key)) by {
            assert forall|k: K| keys.to_set().contains(k) implies rest.to_set().insert(
                key,
            ).contains(k) by {
                let i = choose|i: int| 0 <= i < keys.len() && keys[i] == k;
                if i > 0 {
                    assert(rest[i - 1] == k);
                }
            }
            assert forall|k: K| rest.to_set().insert(key).contains(k) implies keys.to_set().contains(
                k,
            ) by {
                if k == key {
                    assert(keys[0] == k);
                } else {
                    let i = choose|i: int| 0 <= i < rest.len() && rest[i] == k;
                    assert(keys[i + 1] == k);
                }
            }
        }
        if stored.contains(key) {
            assert(keys.to_set().difference(stored) =~= fresh);
        } else {
            assert(keys.to_set().difference(stored) =~= fresh.insert(key));
        }
    }
}

/// The call at position `i` of a run: it has the key `keys[i]`, begins on
/// `tables[i]` and ends on `tables[i + 1]`.
pub open spec fn run_step<T, S, Args>(
    tables: Seq<Map<(T::Striped, Args), T::Striped>>,
    calls: Seq<(S, Args)>,
    keys: Seq<(T::Striped, Args)>,
    results: Seq<S>,
    i: int,
) -> bool where T: PartialStateTransition<S, Args> {
    &&& keys[i].1 == calls[i].1
    &&& cached_step_via::<T, S, Args>(
        tables[i],
        calls[i].0,
        calls[i].1,
        keys[i].0,
        tables[i + 1][keys[i]],
        tables[i + 1],
        results[i],
    )
}

/// A run of calls through one memo table: the calls `calls`, each a state and
/// its arguments, are made in this order, call `i` goes through the key
/// `keys[i]` and returns `results[i]`, and `tables` holds the table before the
/// first call and after each.
pub open spec fn run<T, S, Args>(
    tables: Seq<Map<(T::Striped, Args), T::Striped>>,
    calls: Seq<(S, Args)>,
    keys: Seq<(T::Striped, Args)>,
    results: Seq<S>,
) -> bool where T: PartialStateTransition<S, Args> {
    &&& tables.len() == calls.len() + 1
    &&& keys.len() == calls.len()
    &&& results.len() == calls.len()
    &&& forall|i: int|
        0 <= i < calls.len() ==> #[trigger] run_step::<T, S, Args>(tables, calls, keys, results, i)
}

/// From position `from` of a run to its end, the table gains one entry for
/// each computation and nothing else.
proof fn lemma_run_tail_entries<T, S, Args>(
    tables: Seq<Map<(T::Striped, Args), T::Striped>>,
    calls: Seq<(S, Args)>,
    keys: Seq<(T::Striped, Args)>,
    results: Seq<S>,
    from: int,
) where T: PartialStateTransition<S, Args>
    requires
        run::<T, S, Args>(tables, calls, keys, results),
        0 <= from <= calls.len(),
        tables[from].dom().finite(),
    ensures
        tables.last().dom().finite(),
        tables.last().dom() == tables[from].dom().union(keys.skip(from).to_set()),
        tables.last().len() == tables[from].len() + misses_from(
            tables[from].dom(),
            keys.skip(from),
        ),
        tables[from].submap_of(tables.last()),
    decreases calls.len() - from,
{
    let tail = keys.skip(from);
    if from == calls.len() {
        assert(tail.to_set() =~= Set::<(T::Striped, Args)>::empty());
        assert(tables.last().dom() =~= tables[from].dom().union(tail.to_set()));
    } else {
        assert(run_step::<T, S, Args>(tables, calls, keys, results, from));
        lemma_step_only_adds::<T, S, Args>(
            tables[from],
            calls[from].0,
            calls[from].1,
            keys[from].0,
            tables[from + 1][keys[from]],
            tables[from + 1],
            results[from],
        );
        lemma_run_tail_entries::<T, S, Args>(tables, calls, keys, results, from + 1);
        assert(tail.first() == keys[from]);
        assert(tail.drop_first() =~= keys.skip(from + 1));
        assert(tables.last().dom() =~= tables[from].dom().union(tail.to_set())) by {
            let rest = keys.skip(from + 1);
            assert forall|k: (T::Striped, Args)| tail.to_set().contains(k) implies k == keys[from]
                || rest.to_set().contains(k) by {
                let i = choose|i: int| 0 <= i < tail.len() && tail[i] == k;
                if i > 0 {
                    assert(rest[i - 1] == k);
                }
            }
            assert forall|k: (T::Striped, Args)| rest.to_set().contains(k) implies tail.to_set().contains(
                k,
            ) by {
                let i = choose|i: int| 0 <= i < rest.len() && rest[i] == k;
                assert(tail[i + 1] == k);
            }
            assert(tail.to_set().contains(keys[from])) by {
                assert(tail[0] == keys[from]);
            }
        }
    }
}

/// Over a run the table gains one entry for each computation and loses
/// none: at the end it holds the keys it held and the keys of the calls, with
/// every entry it held unchanged.
pub proof fn lemma_run_entries<T, S, Args>(
    tables: Seq<Map<(T::Striped, Args), T::Striped>>,
    calls: Seq<(S, Args)>,
    keys: Seq<(T::Striped, Args)>,
    results: Seq<S>,
) where T: PartialStateTransition<S, Args>
    requires
        run::<T, S, Args>(tables, calls, keys, results),
        tables.first().dom().finite(),
    ensures
        tables.last().dom().finite(),
        tables.last().dom() == tables.first().dom().union(keys.to_set()),
        tables.last().len() == tables.first().len() + misses_from(tables.first().dom(), keys),
        tables.first().submap_of(tables.last()),
{
    lemma_run_tail_entries::<T, S, Args>(tables, calls, keys, results, 0);
    assert(keys.skip(0) =~= keys);
}

/// Calls that share a key compute at most once: in a run in which every call
/// has the key `key`, there is one computation where the table does not store
/// the key before the first call, and none where it does, however many the
/// calls are and whatever states they start from; the table after the first
/// call is the table at the end.
pub proof fn lemma_run_on_one_key<T, S, Args>(
    tables: Seq<Map<(T::Striped, Args), T::Striped>>,
    calls: Seq<(S, Args)>,
    keys: Seq<(T::Striped, Args)>,
    results: Seq<S>,
    key: (T::Striped, Args),
) where T: PartialStateTransition<S, Args>
    requires
        run::<T, S, Args>(tables, calls, keys, results),
        calls.len() >= 1,
        forall|i: int| 0 <= i < keys.len() ==> keys[i] == key,
        tables.first().dom().finite(),
    ensures
        misses_from(tables.first().dom(), keys) == if tables.first().contains_key(key) {
            0nat
        } else {
            1nat
        },
        tables.last().len() == tables.first().len() + misses_from(tables.first().dom(), keys),
        tables.last() == tables[1],
{
    lemma_run_entries::<T, S, Args>(tables, calls, keys, results);
    lemma_same_key_computes_once(tables.first().dom(), keys, key);
    lemma_run_stays_after_first::<T, S, Args>(tables, calls, keys, results, key, calls.len() as int);
}

/// In a run in which every call has the key `key`, the table after the first
/// call is the table after each later one.
proof fn lemma_run_stays_after_first<T, S, Args>(
    tables: Seq<Map<(T::Striped, Args), T::Striped>>,
    calls: Seq<(S, Args)>,
    keys: Seq<(T::Striped, Args)>,
    results: Seq<S>,
    key: (T::Striped, Args),
    upto: int,
) where T: PartialStateTransition<S, Args>
    requires
        run::<T, S, Args>(tables, calls, keys, results),
        forall|i: int| 0 <= i < keys.len() ==> keys[i] == key,
        1 <= upto <= calls.len(),
    ensures
        tables[upto] == tables[1],
        tables[1].contains_key(key),
    decreases upto,
{
    assert(run_step::<T, S, Args>(tables, calls, keys, results, 0));
    if upto > 1 {
        lemma_run_stays_after_first::<T, S, Args>(tables, calls, keys, results, key, upto - 1);
        assert(run_step::<T, S, Args>(tables, calls, keys, results, upto - 1));
        lemma_step_only_adds::<T, S, Args>(
            tables[upto - 1],
            calls[upto - 1].0,
            calls[upto - 1].1,
            keys[upto - 1].0,
            tables[upto][keys[upto - 1]],
            tables[upto],
            results[upto - 1],
        );
    }
}

/// A run that starts on a table that stores nothing computes once for each
/// distinct key among its calls, and ends with that many entries.
pub proof fn lemma_run_from_empty<T, S, Args>(
    tables: Seq<Map<(T::Striped, Args), T::Striped>>,
    calls: Seq<(S, Args)>,
    keys: Seq<(T::Striped, Args)>,
    results: Seq<S>,
) where T: PartialStateTransition<S, Args>
    requires
        run::<T, S, Args>(tables, calls, keys, results),
        tables.first() == Map::<(T::Striped, Args), T::Striped>::empty(),
    ensures
        misses_from(tables.first().dom(), keys) == keys.to_set().len(),
        tables.last().len() == keys.to_set().len(),
        tables.last().dom() == keys.to_set(),
{
    lemma_run_entries::<T, S, Args>(tables, calls, keys, results);
    lemma_computes_once_per_key(tables.first().dom(), keys);
    assert(keys.to_set().difference(tables.first().dom()) =~= keys.to_set());
    assert(tables.first().dom().union(keys.to_set()) =~= keys.to_set());
}

/// States with equal projections share one entry: of two calls in a row with
/// equal arguments, on states that strip to the same projection, the second
/// finds the key stored, takes the projection result of the first, and leaves
/// the table as the first left it.
pub proof fn lemma_equal_projections_share_entry<T, S, Args>(
    before: Map<(T::Striped, Args), T::Striped>,
    first: S,
    second: S,
    args: Args,
    striped: T::Striped,
    partial1: T::Striped,
    partial2: T::Striped,
    between: Map<(T::Striped, Args), T::Striped>,
    after: Map<(T::Striped, Args), T::Striped>,
    result1: S,
    result2: S,
) where T: PartialStateTransition<S, Args>
    requires
        cached_step_via::<T, S, Args>(before, first, args, striped, partial1, between, result1),
        cached_step_via::<T, S, Args>(between, second, args, striped, partial2, after, result2),
    ensures
        between.contains_key((striped, args)),
        partial2 == partial1,
        after == between,
        misses_from(before.dom(), seq![(striped, args), (striped, args)]) <= 1,
{
    lemma_step_only_adds::<T, S, Args>(between, second, args, striped, partial2, after, result2);
    let keys = seq![(striped, args), (striped, args)];
    assert forall|i: int| 0 <= i < keys.len() implies keys[i] == (striped, args) by {}
    lemma_same_key_computes_once(before.dom(), keys, (striped, args));
}

/// Calls with different keys have entries of their own: of two calls in a row
/// whose arguments or projections differ, the first does not store the key of
/// the second, the second leaves the entry of the first as it is, and together
/// they compute as often as each would alone.
pub proof fn lemma_distinct_keys_store_apart<T, S, Args>(
    before: Map<(T::Striped, Args), T::Striped>,
    first: S,
    args1: Args,
    striped1: T::Striped,
    partial1: T::Striped,
    between: Map<(T::Striped, Args), T::Striped>,
    result1: S,
    second: S,
    args2: Args,
    striped2: T::Striped,
    partial2: T::Striped,
    after: Map<(T::Striped, Args), T::Striped>,
    result2: S,
) where T: PartialStateTransition<S, Args>
    requires
        cached_step_via::<T, S, Args>(before, first, args1, striped1, partial1, between, result1),
        cached_step_via::<T, S, Args>(between, second, args2, striped2, partial2, after, result2),
        striped1 != striped2 || args1 != args2,
    ensures
        between.contains_key((striped2, args2)) == before.contains_key((striped2, args2)),
        after.contains_key((striped1, args1)) && after[(striped1, args1)] == partial1,
        after.contains_key((striped2, args2)) && after[(striped2, args2)] == partial2,
        misses_from(before.dom(), seq![(striped1, args1), (striped2, args2)]) == misses_from(
            before.dom(),
            seq![(striped1, args1)],
        ) + misses_from(before.dom(), seq![(striped2, args2)]),
{
    let key1 = (striped1, args1);
    let key2 = (striped2, args2);
    let both = seq![key1, key2];
    assert(both.drop_first() =~= seq![key2]);
    assert(seq![key1].drop_first() =~= Seq::<(T::Striped, Args)>::empty());
    assert(seq![key2].drop_first() =~= Seq::<(T::Striped, Args)>::empty());
    assert(both.first() == key1 && seq![key1].first() == key1 && seq![key2].first() == key2);
    reveal_with_fuel(misses_from, 3);
}

} // verus!
