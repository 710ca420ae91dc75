//! Results gathered in order: all the values, or the first error.

use vstd::prelude::*;
use crate::error::Error;

verus! {

/// The first error among `results` in their order, or all their values.
pub open spec fn collect<T>(results: Seq<Result<T, Error>>) -> Result<Seq<T>, Error>
    decreases results.len(),
{
    if results.len() == 0 {
        Ok(Seq::empty())
    } else {
        match collect(results.drop_last()) {
            Err(e) => Err(e),
            Ok(front) => match results.last() {
                Err(e) => Err(e),
                Ok(x) => Ok(front.push(x)),
            },
        }
    }
}

/// An error among the first `n` results is the error of them all.
pub proof fn lemma_collect_prefix_error<T>(results: Seq<Result<T, Error>>, n: int)
    requires
        0 <= n <= results.len(),
        collect(results.take(n)) is Err,
    ensures
        collect(results) == collect(results.take(n)),
    decreases results.len() - n,
{
    if n < results.len() {
        assert(results.take(n + 1).drop_last() =~= results.take(n));
        lemma_collect_prefix_error(results, n + 1);
    } else {
        assert(results.take(n) =~= results);
    }
}

/// Where the results in front of result `i` hold values and result `i` holds
/// an error, that error is the error of them all.
pub proof fn lemma_collect_first_error<T>(
    results: Seq<Result<T, Error>>,
    values: Seq<T>,
    i: int,
    e: Error,
)
    requires
        0 <= i < results.len(),
        values.len() == i,
        forall|j: int| 0 <= j < i ==> results[j] == Ok::<T, Error>(values[j]),
        results[i] == Err::<T, Error>(e),
    ensures
        collect(results) == Err::<Seq<T>, Error>(e),
{
    lemma_collect_values(results.take(i), values);
    assert(results.take(i + 1).drop_last() =~= results.take(i));
    lemma_collect_prefix_error(results, i + 1);
}

/// Where all of the first `n` results hold values, so does their collection,
/// and it holds those values in order.
pub proof fn lemma_collect_values<T>(results: Seq<Result<T, Error>>, values: Seq<T>)
    requires
        values.len() == results.len(),
        forall|i: int| 0 <= i < results.len() ==> results[i] == Ok::<T, Error>(values[i]),
    ensures
        collect(results) == Ok::<Seq<T>, Error>(values),
    decreases results.len(),
{
    if results.len() > 0 {
        lemma_collect_values(results.drop_last(), values.drop_last());
        assert(values.drop_last().push(values.last()) =~= values);
    } else {
        assert(values =~= Seq::empty());
    }
}

/// Where a collection holds values, every result held one, and the
/// collection holds them in order.
pub proof fn lemma_collect_all<T>(results: Seq<Result<T, Error>>)
    requires
        collect(results) is Ok,
    ensures
        collect(results)->Ok_0.len() == results.len(),
        forall|i: int|
            0 <= i < results.len() ==> results[i] == Ok::<T, Error>(
                #[trigger] collect(results)->Ok_0[i],
            ),
    decreases results.len(),
{
    if results.len() > 0 {
        lemma_collect_all(results.drop_last());
    }
}

} // verus!
