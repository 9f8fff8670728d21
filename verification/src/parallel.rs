use rayon::iter::{IntoParallelIterator, ParallelIterator};
use vstd::prelude::*;

verus! {

/// The contents of a list of vectors, one after the other.
pub open spec fn concat_of<T>(parts: Seq<Vec<T>>) -> Seq<T> {
    parts.map_values(|part: Vec<T>| part@).flatten()
}

/// Applies `f` to each item, on rayon's thread pool, and collects the
/// results in the order of the items.
///
/// Calls rayon's `into_par_iter` on the vector, `map` with `f`, and
/// `collect` into a vector. Believed of them: `map` calls `f` on each item
/// of the vector and on nothing else, and `collect` puts the result for the
/// item at each place at the same place of the new vector.
#[verifier::external_body]
pub(crate) fn par_map<T: Send, U: Send, F: Fn(T) -> U + Sync + Send>(items: Vec<T>, f: F) -> (out:
    Vec<U>)
    requires
        forall|i: int| 0 <= i < items@.len() ==> call_requires(f, (#[trigger] items@[i],)),
    ensures
        out@.len() == items@.len(),
        forall|i: int| 0 <= i < items@.len() ==> call_ensures(f, (items@[i],), #[trigger] out@[i]),
{
    items.into_par_iter().map(f).collect()
}

/// Puts the contents of the vectors one after the other, on rayon's thread
/// pool.
///
/// Calls rayon's `into_par_iter` on the outer vector, `flat_map` with the
/// identity, and `collect` into a vector. Believed of them: the new vector
/// holds the items of the first inner vector in their order, then those of
/// the second, and so on.
#[verifier::external_body]
pub(crate) fn par_flatten<T: Send>(parts: Vec<Vec<T>>) -> (out: Vec<T>)
    ensures
        out@ == concat_of(parts@),
{
    parts.into_par_iter().flat_map(|part| part).collect()
}

/// Mapping the items of parts put together is putting the mapped parts
/// together.
pub proof fn lemma_map_flatten<A, B>(parts: Seq<Seq<A>>, f: spec_fn(A) -> B)
    ensures
        parts.flatten().map_values(f) == parts.map_values(|part: Seq<A>| part.map_values(f)).flatten(),
    decreases parts.len(),
{
    let g = |part: Seq<A>| part.map_values(f);
    if parts.len() == 0 {
        assert(parts.flatten().map_values(f) =~= parts.map_values(g).flatten());
    } else {
        let rest = parts.drop_first();
        lemma_map_flatten(rest, f);
        assert(parts.map_values(g).drop_first() =~= rest.map_values(g));
        assert(parts.map_values(g).first() == parts.first().map_values(f));
        assert(parts.flatten().map_values(f) =~= parts.first().map_values(f) + rest.flatten().map_values(
            f,
        ));
    }
}

} // verus!
