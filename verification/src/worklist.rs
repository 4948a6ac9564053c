//! Stacks of indices without repetition, as the alias tables use them while they pair slots.

use vstd::prelude::*;

verus! {

/// The index `j` is on the list.
pub open spec fn listed(list: Seq<u32>, j: int) -> bool {
    exists|k: int| 0 <= k < list.len() && #[trigger] list[k] == j
}

/// No index is on the list twice.
pub open spec fn distinct(list: Seq<u32>) -> bool {
    forall|a: int, b: int| 0 <= a < b < list.len() ==> list[a] != list[b]
}

/// Pushing keeps what was listed and lists the new index.
pub proof fn lemma_listed_push(list: Seq<u32>, x: u32)
    ensures
        listed(list.push(x), x as int),
        forall|j: int| listed(list, j) ==> listed(list.push(x), j),
{
    assert(list.push(x)[list.len() as int] == x);
    assert forall|j: int| listed(list, j) implies listed(list.push(x), j) by {
        let k = choose|k: int| 0 <= k < list.len() && #[trigger] list[k] == j;
        assert(list.push(x)[k] == j);
    }
}

/// Popping unlists only the index on top.
pub proof fn lemma_listed_pop(list: Seq<u32>)
    requires
        list.len() > 0,
    ensures
        forall|j: int| listed(list, j) && j != list.last() ==> listed(list.drop_last(), j),
{
    assert forall|j: int| listed(list, j) && j != list.last() implies listed(
        list.drop_last(),
        j,
    ) by {
        let k = choose|k: int| 0 <= k < list.len() && #[trigger] list[k] == j;
        assert(list.drop_last()[k] == j);
    }
}

/// On a list without repetition the index on top is nowhere below.
pub proof fn lemma_distinct_pop(list: Seq<u32>)
    requires
        list.len() > 0,
        distinct(list),
    ensures
        distinct(list.drop_last()),
        !listed(list.drop_last(), list.last() as int),
{
    assert forall|a: int, b: int| 0 <= a < b < list.drop_last().len() implies list.drop_last()[a]
        != list.drop_last()[b] by {
        assert(list[a] != list[b]);
    }
    if listed(list.drop_last(), list.last() as int) {
        let k = choose|k: int|
            0 <= k < list.drop_last().len() && #[trigger] list.drop_last()[k] == list.last();
        assert(list[k] != list[list.len() - 1]);
    }
}

/// Pushing an index that is not listed keeps the list without repetition.
pub proof fn lemma_distinct_push(list: Seq<u32>, x: u32)
    requires
        distinct(list),
        !listed(list, x as int),
    ensures
        distinct(list.push(x)),
{
    assert forall|a: int, b: int| 0 <= a < b < list.push(x).len() implies list.push(x)[a]
        != list.push(x)[b] by {
        if b == list.len() {
            if list[a] == x {
                assert(listed(list, x as int));
            }
        } else {
            assert(list[a] != list[b]);
        }
    }
}

} // verus!
