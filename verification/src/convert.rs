//! One adapter for each format: the shape of the format's values, and the
//! two directions between it and the intermediate value.

pub mod cbor;
pub mod json;
pub mod messagepack;
pub mod ron;
pub mod toml;
pub mod yaml;

use crate::error::ConvertError;
use crate::value::Float;
use vstd::prelude::*;

verus! {

/// What a conversion came to, over the contents of the value it gave.
pub open spec fn viewed<T: View>(result: Result<T, ConvertError>) -> Result<T::V, ConvertError> {
    match result {
        Ok(value) => Ok(value@),
        Err(error) => Err(error),
    }
}

/// The mathematical content of a number of JSON or of YAML: an integer of
/// one of the two 64-bit ranges, or a float.
pub ghost enum NumberView {
    Integer(int),
    Float(Float),
}

/// The result at `index` is an error, and none before it is.
pub open spec fn is_first_error<T>(results: Seq<Result<T, ConvertError>>, index: int) -> bool {
    &&& 0 <= index < results.len()
    &&& results[index] is Err
    &&& forall|j: int| 0 <= j < index ==> (#[trigger] results[j]) is Ok
}

/// All the values where every result is one, and else the first error.
pub open spec fn collect_results<T>(results: Seq<Result<T, ConvertError>>) -> Result<
    Seq<T>,
    ConvertError,
> {
    if exists|i: int| 0 <= i < results.len() && (#[trigger] results[i]) is Err {
        Err(results[choose|i: int| is_first_error(results, i)]->Err_0)
    } else {
        Ok(Seq::new(results.len(), |i: int| results[i]->Ok_0))
    }
}

/// The first error is what a sequence of results collects to.
pub proof fn lemma_collect_first_error<T>(results: Seq<Result<T, ConvertError>>, index: int)
    requires
        is_first_error(results, index),
    ensures
        collect_results(results) == Err::<Seq<T>, ConvertError>(results[index]->Err_0),
{
    let chosen = choose|i: int| is_first_error(results, i);
    assert(is_first_error(results, chosen));
    assert(chosen == index) by {
        if chosen < index {
            assert(results[chosen] is Ok);
        } else if index < chosen {
            assert(results[index] is Ok);
        }
    }
}

/// Where some result is an error, one of them is the first.
pub proof fn lemma_first_error_exists<T>(results: Seq<Result<T, ConvertError>>, index: int)
    requires
        0 <= index < results.len(),
        results[index] is Err,
    ensures
        exists|i: int| 0 <= i <= index && is_first_error(results, i),
    decreases index,
{
    if exists|j: int| 0 <= j < index && (#[trigger] results[j]) is Err {
        let j = choose|j: int| 0 <= j < index && (#[trigger] results[j]) is Err;
        lemma_first_error_exists(results, j);
    } else {
        assert(is_first_error(results, index));
    }
}

/// The error that a sequence of results collects to is the first among them.
pub proof fn lemma_collected_error<T>(results: Seq<Result<T, ConvertError>>) -> (index: int)
    requires
        collect_results(results) is Err,
    ensures
        is_first_error(results, index),
        collect_results(results) == Err::<Seq<T>, ConvertError>(results[index]->Err_0),
{
    let some = choose|i: int| 0 <= i < results.len() && (#[trigger] results[i]) is Err;
    lemma_first_error_exists(results, some);
    let index = choose|i: int| is_first_error(results, i);
    index
}

/// Results without an error collect to their values.
pub proof fn lemma_collect_values<T>(results: Seq<Result<T, ConvertError>>, values: Seq<T>)
    requires
        values.len() == results.len(),
        forall|i: int|
            0 <= i < results.len() ==> (#[trigger] results[i]) == Ok::<T, ConvertError>(
                values[i],
            ),
    ensures
        collect_results(results) == Ok::<Seq<T>, ConvertError>(values),
{
    assert(Seq::new(results.len(), |i: int| results[i]->Ok_0) =~= values);
}

/// Where the results collect to values, each result is its value.
pub proof fn lemma_collected<T>(results: Seq<Result<T, ConvertError>>)
    requires
        collect_results(results) is Ok,
    ensures
        collect_results(results)->Ok_0.len() == results.len(),
        forall|i: int|
            0 <= i < results.len() ==> (#[trigger] results[i]) == Ok::<T, ConvertError>(
                collect_results(results)->Ok_0[i],
            ),
{
}

} // verus!
