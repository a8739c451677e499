//! Map construction from key/value pairs, and unwrapping with a handler.

use vstd::prelude::*;
use std::collections::HashMap;
use std::hash::Hash;
use vstd::std_specs::hash::obeys_key_model;

verus! {

broadcast use vstd::std_specs::hash::group_hash_axioms;

/// Brings a fallible shape (`Result` or `Option`) into one success-or-failure
/// form, so that a value can be taken out of either in the same way.
pub trait IntoResult: Sized {
    type Output;

    type Error;

    /// The `Result` that `into_result` produces from `self`.
    spec fn into_result_spec(self) -> Result<Self::Output, Self::Error>;

    fn into_result(self) -> (r: Result<Self::Output, Self::Error>)
        ensures
            r == self.into_result_spec(),
    ;
}

/// A `Result` is already in the unified form: it passes through unchanged.
impl<T, E> IntoResult for Result<T, E> {
    type Output = T;

    type Error = E;

    open spec fn into_result_spec(self) -> Result<T, E> {
        self
    }

    fn into_result(self) -> (r: Result<T, E>) {
        self
    }
}

/// A present value becomes a success; absence becomes a failure that carries
/// no information.
impl<T> IntoResult for Option<T> {
    type Output = T;

    type Error = ();

    open spec fn into_result_spec(self) -> Result<T, ()> {
        match self {
            Some(x) => Ok(x),
            None => Err(()),
        }
    }

    fn into_result(self) -> (r: Result<T, ()>) {
        match self {
            Some(x) => Ok(x),
            None => Err(()),
        }
    }
}

/// The map that results from inserting the pairs of `pairs` in order: a later
/// pair with the same key replaces an earlier one.
pub open spec fn map_of_pairs<K, V>(pairs: Seq<(K, V)>) -> Map<K, V>
    decreases pairs.len(),
{
    if pairs.len() == 0 {
        Map::empty()
    } else {
        let last = pairs.last();
        map_of_pairs(pairs.drop_last()).insert(last.0, last.1)
    }
}

/// The keys of `pairs` are pairwise distinct.
pub open spec fn keys_distinct<K, V>(pairs: Seq<(K, V)>) -> bool {
    forall|i: int, j: int|
        0 <= i < j < pairs.len() ==> #[trigger] pairs[i].0 != #[trigger] pairs[j].0
}

/// The keys of the built map are exactly the keys that occur in `pairs`,
/// and there are finitely many of them.
pub proof fn lemma_map_of_pairs_domain<K, V>(pairs: Seq<(K, V)>)
    ensures
        map_of_pairs(pairs).dom().finite(),
        forall|k: K|
            map_of_pairs(pairs).contains_key(k) <==> exists|i: int|
                0 <= i < pairs.len() && #[trigger] pairs[i].0 == k,
    decreases pairs.len(),
{
    if pairs.len() > 0 {
        let prefix = pairs.drop_last();
        lemma_map_of_pairs_domain(prefix);
        assert forall|k: K|
            map_of_pairs(pairs).contains_key(k) <==> exists|i: int|
                0 <= i < pairs.len() && #[trigger] pairs[i].0 == k by {
            if map_of_pairs(pairs).contains_key(k) && k != pairs.last().0 {
                let i = choose|i: int| 0 <= i < prefix.len() && #[trigger] prefix[i].0 == k;
                assert(pairs[i].0 == k);
            }
            if exists|i: int| 0 <= i < pairs.len() && #[trigger] pairs[i].0 == k {
                let i = choose|i: int| 0 <= i < pairs.len() && #[trigger] pairs[i].0 == k;
                if i < prefix.len() {
                    assert(prefix[i].0 == k);
                }
            }
        }
    }
}

/// Looking up a key gives the value of the last pair that holds it: a pair
/// with no later pair of the same key is what the map keeps.
pub proof fn lemma_last_pair_wins<K, V>(pairs: Seq<(K, V)>, i: int)
    requires
        0 <= i < pairs.len(),
        forall|j: int| i < j < pairs.len() ==> #[trigger] pairs[j].0 != pairs[i].0,
    ensures
        map_of_pairs(pairs).contains_key(pairs[i].0),
        map_of_pairs(pairs)[pairs[i].0] == pairs[i].1,
    decreases pairs.len(),
{
    if i < pairs.len() - 1 {
        let prefix = pairs.drop_last();
        assert forall|j: int| i < j < prefix.len() implies #[trigger] prefix[j].0 != prefix[i].0 by {
            assert(prefix[j] == pairs[j]);
        }
        lemma_last_pair_wins(prefix, i);
        assert(pairs.last().0 != pairs[i].0);
    }
}

/// With pairwise distinct keys, the built map has exactly one entry per pair,
/// and each key maps to the value paired with it.
pub proof fn lemma_distinct_keys<K, V>(pairs: Seq<(K, V)>)
    requires
        keys_distinct(pairs),
    ensures
        map_of_pairs(pairs).len() == pairs.len(),
        forall|i: int|
            0 <= i < pairs.len() ==> #[trigger] map_of_pairs(pairs).contains_key(pairs[i].0)
                && map_of_pairs(pairs)[pairs[i].0] == pairs[i].1,
    decreases pairs.len(),
{
    assert forall|i: int| 0 <= i < pairs.len() implies #[trigger] map_of_pairs(
        pairs,
    ).contains_key(pairs[i].0) && map_of_pairs(pairs)[pairs[i].0] == pairs[i].1 by {
        lemma_last_pair_wins(pairs, i);
    }
    if pairs.len() > 0 {
        let prefix = pairs.drop_last();
        let last = pairs.last();
        assert(keys_distinct(prefix)) by {
            assert forall|i: int, j: int| 0 <= i < j < prefix.len() implies #[trigger] prefix[i].0
                != #[trigger] prefix[j].0 by {
                assert(prefix[i] == pairs[i] && prefix[j] == pairs[j]);
            }
        }
        lemma_distinct_keys(prefix);
        lemma_map_of_pairs_domain(prefix);
        assert(!map_of_pairs(prefix).contains_key(last.0)) by {
            if map_of_pairs(prefix).contains_key(last.0) {
                let i = choose|i: int| 0 <= i < prefix.len() && #[trigger] prefix[i].0 == last.0;
                assert(pairs[i].0 == pairs[pairs.len() - 1].0);
            }
        }
    }
}

/// Builds a `HashMap` holding the given pairs; where a key occurs more than
/// once, its last pair wins. What the map holds is stated for key types that
/// hash and compare consistently with their value (`obeys_key_model`), as the
/// integer types and `bool` do.
pub fn hashmap<K: Eq + Hash, V>(pairs: Vec<(K, V)>) -> (m: HashMap<K, V>)
    ensures
        obeys_key_model::<K>() ==> m@ == map_of_pairs(pairs@),
{
    let ghost all = pairs@;
    let mut m: HashMap<K, V> = HashMap::new();
    for pair in it: pairs
        invariant
            it.seq() == all,
            obeys_key_model::<K>() ==> m@ == map_of_pairs(all.take(it.index() as int)),
    {
        proof {
            assert(all.take(it.index() + 1).drop_last() == all.take(it.index() as int));
        }
        let (k, v) = pair;
        m.insert(k, v);
    }
    proof {
        assert(all.take(all.len() as int) == all);
    }
    m
}

/// What `unwrap` may return for `expr` and `handler`: the success value, or an
/// outcome of the handler run on the failure value.
pub open spec fn unwrap_outcome<R: IntoResult, F: FnOnce(R::Error) -> R::Output>(
    expr: R,
    handler: F,
    r: R::Output,
) -> bool {
    match expr.into_result_spec() {
        Ok(v) => r == v,
        Err(e) => handler.ensures((e,), r),
    }
}

/// What `unwrap_or` returns: the success value, or `fallback`.
pub open spec fn unwrap_or_spec<R: IntoResult>(expr: R, fallback: R::Output) -> R::Output {
    match expr.into_result_spec() {
        Ok(v) => v,
        Err(_) => fallback,
    }
}

/// Takes the success value out of `expr`, or runs `handler` on the failure
/// value and returns what it returns. The handler runs only on failure.
pub fn unwrap<R: IntoResult, F: FnOnce(R::Error) -> R::Output>(expr: R, handler: F) -> (r:
    R::Output)
    requires
        forall|e: R::Error| expr.into_result_spec() == Err::<R::Output, R::Error>(e)
            ==> handler.requires((e,)),
    ensures
        unwrap_outcome(expr, handler, r),
{
    match expr.into_result() {
        Ok(x) => x,
        Err(err) => handler(err),
    }
}

/// Takes the success value out of `expr`, or returns `fallback`, ignoring
/// the failure value.
pub fn unwrap_or<R: IntoResult>(expr: R, fallback: R::Output) -> (r: R::Output)
    ensures
        r == unwrap_or_spec(expr, fallback),
{
    match expr.into_result() {
        Ok(x) => x,
        Err(_) => fallback,
    }
}

/// On success, `unwrap` returns the success value, whatever the handler is.
pub proof fn lemma_unwrap_success<R: IntoResult, F: FnOnce(R::Error) -> R::Output>(
    expr: R,
    v: R::Output,
    handler: F,
    r: R::Output,
)
    requires
        expr.into_result_spec() == Ok::<R::Output, R::Error>(v),
        unwrap_outcome(expr, handler, r),
    ensures
        r == v,
{
}

/// On a failed `Result`, `unwrap` returns what the handler returns when it is
/// given the error.
pub proof fn lemma_unwrap_failure<T, E, F: FnOnce(E) -> T>(e: E, handler: F, r: T)
    requires
        unwrap_outcome(Err::<T, E>(e), handler, r),
    ensures
        handler.ensures((e,), r),
{
}

/// On an absent `Option`, `unwrap` returns what the handler returns when it is
/// given the empty failure value `()`.
pub proof fn lemma_unwrap_absent<T, F: FnOnce(()) -> T>(handler: F, r: T)
    requires
        unwrap_outcome(None::<T>, handler, r),
    ensures
        handler.ensures(((),), r),
{
}

/// A handler that always returns `fallback` makes `unwrap` agree with
/// `unwrap_or` given that fallback.
pub proof fn lemma_unwrap_or_is_constant_handler<
    R: IntoResult,
    F: FnOnce(R::Error) -> R::Output,
>(expr: R, fallback: R::Output, handler: F, r: R::Output)
    requires
        forall|e: R::Error, y: R::Output| #[trigger] handler.ensures((e,), y) ==> y == fallback,
        unwrap_outcome(expr, handler, r),
    ensures
        r == unwrap_or_spec(expr, fallback),
{
}

} // verus!
