//! Finding the first entry with a given key.

use vstd::prelude::*;

verus! {

/// `i` is the first position in `ids` that holds `id`.
pub open spec fn is_first<T>(ids: Seq<T>, id: T, i: int) -> bool {
    &&& 0 <= i < ids.len()
    &&& ids[i] == id
    &&& forall|j: int| 0 <= j < i ==> ids[j] != id
}

/// The first position in `ids` that holds `id`, if any does.
pub open spec fn position<T>(ids: Seq<T>, id: T) -> Option<int> {
    if exists|i: int| is_first(ids, id, i) {
        Some(choose|i: int| is_first(ids, id, i))
    } else {
        None
    }
}

/// If `i` is the first position of `id`, `position` finds it.
pub proof fn lemma_position_found<T>(ids: Seq<T>, id: T, i: int)
    requires
        is_first(ids, id, i),
    ensures
        position(ids, id) == Some(i),
{
    let c = choose|c: int| is_first(ids, id, c);
    assert(is_first(ids, id, c));
    if c < i {
        assert(ids[c] != id);
    } else if i < c {
        assert(ids[i] != id);
    }
}

/// If no position holds `id`, `position` finds none.
pub proof fn lemma_position_missing<T>(ids: Seq<T>, id: T)
    requires
        forall|j: int| 0 <= j < ids.len() ==> ids[j] != id,
    ensures
        position(ids, id) is None,
{
    if exists|i: int| is_first(ids, id, i) {
        let c = choose|c: int| is_first(ids, id, c);
        assert(ids[c] != id);
    }
}

/// What `position` returns is the first position of `id`; it returns
/// nothing only if no position holds `id`.
pub proof fn lemma_position<T>(ids: Seq<T>, id: T)
    ensures
        match position(ids, id) {
            Some(i) => is_first(ids, id, i),
            None => forall|j: int| 0 <= j < ids.len() ==> ids[j] != id,
        },
{
    if exists|i: int| is_first(ids, id, i) {
        let c = choose|c: int| is_first(ids, id, c);
        assert(is_first(ids, id, c));
    } else {
        assert forall|j: int| 0 <= j < ids.len() implies ids[j] != id by {
            lemma_no_first(ids, id, j);
        }
    }
}

/// Where nothing is the first position of `id`, nothing up to `j` holds it.
proof fn lemma_no_first<T>(ids: Seq<T>, id: T, j: int)
    requires
        0 <= j < ids.len(),
        !exists|i: int| is_first(ids, id, i),
    ensures
        ids[j] != id,
    decreases j,
{
    if ids[j] == id {
        assert forall|k: int| 0 <= k < j implies ids[k] != id by {
            lemma_no_first(ids, id, k);
        }
        assert(is_first(ids, id, j));
    }
}

/// In a sequence where every entry equals its own position, an id is found
/// exactly where it points.
pub proof fn lemma_position_indexed(ids: Seq<usize>, id: usize)
    requires
        forall|i: int| 0 <= i < ids.len() ==> ids[i] == i,
    ensures
        position(ids, id) == if id < ids.len() {
            Some(id as int)
        } else {
            None::<int>
        },
{
    if id < ids.len() {
        assert(is_first(ids, id, id as int));
        lemma_position_found(ids, id, id as int);
    } else {
        lemma_position_missing(ids, id);
    }
}

} // verus!
