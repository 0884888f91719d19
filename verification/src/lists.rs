//! Lists that go along with other lists.

use vstd::prelude::*;

verus! {

/// The lesser of two numbers.
pub open spec fn at_most(a: int, b: int) -> int {
    if a < b {
        a
    } else {
        b
    }
}

/// Whether each item comes from the one at the same place of the other list.
pub open spec fn pairwise<A, B>(
    items: Seq<A>,
    sources: Seq<B>,
    comes_from: spec_fn(A, B) -> bool,
) -> bool {
    &&& items.len() == sources.len()
    &&& forall|i: int| 0 <= i < items.len() ==> comes_from(#[trigger] items[i], sources[i])
}

/// Where the items behind a start come from some sources, and those that were added come
/// from further sources, all behind the start come from all the sources.
pub proof fn lemma_pairwise_append<A, B>(
    before: Seq<A>,
    after: Seq<A>,
    start: int,
    sources: Seq<B>,
    added: Seq<B>,
    comes_from: spec_fn(A, B) -> bool,
)
    requires
        0 <= start <= before.len(),
        before.is_prefix_of(after),
        pairwise(before.skip(start), sources, comes_from),
        pairwise(after.skip(before.len() as int), added, comes_from),
    ensures
        pairwise(after.skip(start), sources + added, comes_from),
{
    let rest = after.skip(start);
    assert forall|i: int| 0 <= i < rest.len() implies comes_from(
        #[trigger] rest[i],
        (sources + added)[i],
    ) by {
        if i < sources.len() {
            assert(rest[i] == before.skip(start)[i]);
        } else {
            assert(rest[i] == after.skip(before.len() as int)[i - sources.len()]);
        }
    }
}

} // verus!
