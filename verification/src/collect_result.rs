//! Collecting a list of results so that every error is kept, not only the first.
use vstd::prelude::*;

verus! {

/// The outcome of collecting results: all values, or all errors.
pub enum CollectResult<T, E> {
    Values(T),
    Errors(Vec<E>),
}

/// The values of the `Ok` results, in order.
pub open spec fn ok_values<A, E>(results: Seq<Result<A, E>>) -> Seq<A>
    decreases results.len(),
{
    if results.len() == 0 {
        Seq::empty()
    } else {
        let init = ok_values(results.drop_last());
        match results.last() {
            Ok(a) => init.push(a),
            Err(_) => init,
        }
    }
}

/// The errors of the `Err` results, in order.
pub open spec fn err_values<A, E>(results: Seq<Result<A, E>>) -> Seq<E>
    decreases results.len(),
{
    if results.len() == 0 {
        Seq::empty()
    } else {
        let init = err_values(results.drop_last());
        match results.last() {
            Ok(_) => init,
            Err(e) => init.push(e),
        }
    }
}

impl<T, E> CollectResult<T, E> {
    /// The collected values, or the collected errors.
    pub fn into_result(self) -> (r: Result<T, Vec<E>>)
        ensures
            match self {
                CollectResult::Values(v) => r == Ok::<T, Vec<E>>(v),
                CollectResult::Errors(es) => r == Err::<T, Vec<E>>(es),
            },
    {
        match self {
            CollectResult::Values(results) => Ok(results),
            CollectResult::Errors(report) => Err(report),
        }
    }
}

/// Collects `results`: when none is an error, all values in order; otherwise
/// every error, in order.
pub fn collect_results<A, E>(results: Vec<Result<A, E>>) -> (r: CollectResult<Vec<A>, E>)
    ensures
        err_values(results@).len() == 0 ==> (r matches CollectResult::Values(v) && v@
            == ok_values(results@)),
        err_values(results@).len() > 0 ==> (r matches CollectResult::Errors(es) && es@
            == err_values(results@)),
{
    let ghost all = results@;
    let mut values: Vec<A> = Vec::new();
    let mut errors: Vec<E> = Vec::new();
    for item in it: results.into_iter()
        invariant
            it.seq() == all,
            values@ == ok_values(all.take(it.index() as int)),
            errors@ == err_values(all.take(it.index() as int)),
    {
        proof {
            assert(all.take(it.index() as int + 1).drop_last() =~= all.take(it.index() as int));
        }
        match item {
            Ok(v) => values.push(v),
            Err(e) => errors.push(e),
        }
    }
    proof {
        assert(all.take(all.len() as int) =~= all);
    }
    if errors.len() == 0 {
        CollectResult::Values(values)
    } else {
        CollectResult::Errors(errors)
    }
}

} // verus!
