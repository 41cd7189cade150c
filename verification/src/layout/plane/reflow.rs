//! Which windows take part in the reflow animation after the plane was rearranged.
//!
//! A window slides from where it was to where it is now when it was already there before the
//! change and was not just added; the offset itself is computed by the caller.
use vstd::prelude::*;
use crate::layout::search::index_of;
use crate::layout::search::holds_id;

verus! {

/// Whether `id` occurs among the first `len` entries of `ids`.
pub open spec fn occurs_before(ids: Seq<u64>, id: u64, len: int) -> bool {
    exists|k: int| 0 <= k < len && ids[k] == id
}

/// The position of the first occurrence of `id` in `ids`; meaningful when `id` occurs.
pub open spec fn first_position(ids: Seq<u64>, id: u64) -> int {
    choose|i: int| 0 <= i < ids.len() && ids[i] == id && !occurs_before(ids, id, i)
}

/// Whether the window at position `j` of the new snapshot slides: it was there before and was
/// not just added.
pub open spec fn slides(old_ids: Seq<u64>, new_ids: Seq<u64>, added: Seq<u64>, j: int) -> bool {
    old_ids.contains(new_ids[j]) && !added.contains(new_ids[j])
}

/// The pairs `(j, i)` such that the window at position `j` of `new_ids` slides from its old
/// place, and `i` is the first position of its id in `old_ids`; in the order of `new_ids`.
pub open spec fn reflow_spec(old_ids: Seq<u64>, new_ids: Seq<u64>, added: Seq<u64>, len: int) -> Seq<(usize, usize)>
    decreases len,
{
    if len <= 0 {
        Seq::empty()
    } else {
        let rest = reflow_spec(old_ids, new_ids, added, len - 1);
        if slides(old_ids, new_ids, added, len - 1) {
            rest.push(((len - 1) as usize, first_position(old_ids, new_ids[len - 1]) as usize))
        } else {
            rest
        }
    }
}

proof fn lemma_first_position(ids: Seq<u64>, id: u64, i: int)
    requires
        0 <= i < ids.len(),
        ids[i] == id,
        forall|k: int| 0 <= k < i ==> ids[k] != id,
    ensures
        first_position(ids, id) == i,
{
    assert(!occurs_before(ids, id, i));
    let f = first_position(ids, id);
    if f < i {
        assert(ids[f] == id);
    } else if f > i {
        assert(occurs_before(ids, id, f));
    }
}

proof fn lemma_first_occurrence_exists(ids: Seq<u64>, id: u64, i: int)
    requires
        0 <= i < ids.len(),
        ids[i] == id,
    ensures
        exists|f: int| 0 <= f < ids.len() && ids[f] == id && !occurs_before(ids, id, f),
    decreases i,
{
    if occurs_before(ids, id, i) {
        let k = choose|k: int| 0 <= k < i && ids[k] == id;
        lemma_first_occurrence_exists(ids, id, k);
    } else {
        assert(0 <= i < ids.len() && ids[i] == id && !occurs_before(ids, id, i));
    }
}

/// For each window of the new snapshot that slides, its position there and the position of its
/// id in the old snapshot, in the order of the new snapshot.
pub fn reflow_matches(old_ids: &[u64], new_ids: &[u64], added: &[u64]) -> (pairs: Vec<(usize, usize)>)
    ensures
        pairs@ == reflow_spec(old_ids@, new_ids@, added@, new_ids@.len() as int),
        forall|k: int|
            0 <= k < pairs@.len() ==> {
                &&& (#[trigger] pairs@[k]).0 < new_ids@.len()
                &&& pairs@[k].1 < old_ids@.len()
                &&& old_ids@[pairs@[k].1 as int] == new_ids@[pairs@[k].0 as int]
                &&& !added@.contains(new_ids@[pairs@[k].0 as int])
                &&& forall|m: int| 0 <= m < pairs@[k].1 ==> old_ids@[m] != new_ids@[pairs@[k].0 as int]
            },
        forall|j: int|
            0 <= j < new_ids@.len() && old_ids@.contains(#[trigger] new_ids@[j]) && !added@.contains(new_ids@[j])
                ==> exists|k: int| 0 <= k < pairs@.len() && pairs@[k].0 == j,
        forall|k1: int, k2: int| 0 <= k1 < k2 < pairs@.len() ==> (#[trigger] pairs@[k1]).0 < (#[trigger] pairs@[k2]).0,
{
    let mut pairs: Vec<(usize, usize)> = Vec::new();
    let mut j: usize = 0;
    while j < new_ids.len()
        invariant
            j <= new_ids@.len(),
            pairs@ == reflow_spec(old_ids@, new_ids@, added@, j as int),
        decreases new_ids@.len() - j,
    {
        let id = new_ids[j];
        match index_of(old_ids, id) {
            Some(i) => {
                proof {
                    assert(old_ids@.contains(id));
                    lemma_first_position(old_ids@, id, i as int);
                }
                if !holds_id(added, id) {
                    pairs.push((j, i));
                }
            },
            None => {
                proof {
                    assert(!old_ids@.contains(id));
                }
            },
        }
        j = j + 1;
    }
    proof {
        let len = new_ids@.len() as int;
        assert(old_ids@.len() == old_ids.len());
        assert forall|k: int| 0 <= k < pairs@.len() implies {
            &&& (#[trigger] pairs@[k]).0 < new_ids@.len()
            &&& pairs@[k].1 < old_ids@.len()
            &&& old_ids@[pairs@[k].1 as int] == new_ids@[pairs@[k].0 as int]
            &&& !added@.contains(new_ids@[pairs@[k].0 as int])
            &&& forall|m: int| 0 <= m < pairs@[k].1 ==> old_ids@[m] != new_ids@[pairs@[k].0 as int]
        } by {
            law_slides_only_known_windows(old_ids@, new_ids@, added@, len, k);
        }
        assert forall|j: int| 0 <= j < new_ids@.len() && old_ids@.contains(#[trigger] new_ids@[j]) && !added@.contains(new_ids@[j])
            implies exists|k: int| 0 <= k < pairs@.len() && pairs@[k].0 == j by {
            law_every_known_window_slides(old_ids@, new_ids@, added@, len, j);
        }
        assert forall|k1: int, k2: int| 0 <= k1 < k2 < pairs@.len() implies (#[trigger] pairs@[k1]).0 < (#[trigger] pairs@[k2]).0 by {
            law_slides_in_new_order(old_ids@, new_ids@, added@, len, k1, k2);
        }
    }
    pairs
}

/// A window that slides is in the new snapshot, was in the old one under the id it has now, is
/// paired with the first old place of that id, and was not just added.
pub proof fn law_slides_only_known_windows(old_ids: Seq<u64>, new_ids: Seq<u64>, added: Seq<u64>, len: int, k: int)
    requires
        0 <= len <= new_ids.len(),
        new_ids.len() <= usize::MAX,
        old_ids.len() <= usize::MAX,
        0 <= k < reflow_spec(old_ids, new_ids, added, len).len(),
    ensures
        reflow_spec(old_ids, new_ids, added, len)[k].0 < len,
        reflow_spec(old_ids, new_ids, added, len)[k].1 < old_ids.len(),
        old_ids[reflow_spec(old_ids, new_ids, added, len)[k].1 as int]
            == new_ids[reflow_spec(old_ids, new_ids, added, len)[k].0 as int],
        !added.contains(new_ids[reflow_spec(old_ids, new_ids, added, len)[k].0 as int]),
        forall|m: int|
            0 <= m < reflow_spec(old_ids, new_ids, added, len)[k].1 ==> old_ids[m]
                != new_ids[reflow_spec(old_ids, new_ids, added, len)[k].0 as int],
    decreases len,
{
    let rest = reflow_spec(old_ids, new_ids, added, len - 1);
    if k < rest.len() {
        law_slides_only_known_windows(old_ids, new_ids, added, len - 1, k);
    } else {
        let id = new_ids[len - 1];
        let i = choose|i: int| 0 <= i < old_ids.len() && old_ids[i] == id;
        lemma_first_occurrence_exists(old_ids, id, i);
        let f = first_position(old_ids, id);
        assert forall|m: int| 0 <= m < f implies old_ids[m] != id by {
            if old_ids[m] == id {
                assert(occurs_before(old_ids, id, f));
            }
        }
    }
}

/// Every window of the new snapshot that was in the old one and was not just added slides.
pub proof fn law_every_known_window_slides(old_ids: Seq<u64>, new_ids: Seq<u64>, added: Seq<u64>, len: int, j: int)
    requires
        0 <= j < len <= new_ids.len(),
        new_ids.len() <= usize::MAX,
        old_ids.contains(new_ids[j]),
        !added.contains(new_ids[j]),
    ensures
        exists|k: int|
            0 <= k < reflow_spec(old_ids, new_ids, added, len).len()
                && reflow_spec(old_ids, new_ids, added, len)[k].0 == j,
    decreases len,
{
    let rest = reflow_spec(old_ids, new_ids, added, len - 1);
    let result = reflow_spec(old_ids, new_ids, added, len);
    if j == len - 1 {
        assert(result[rest.len() as int].0 == j);
    } else {
        law_every_known_window_slides(old_ids, new_ids, added, len - 1, j);
        let k = choose|k: int| 0 <= k < rest.len() && rest[k].0 == j;
        assert(result[k] == rest[k]);
    }
}

/// The sliding windows come in the order of the new snapshot, each once.
pub proof fn law_slides_in_new_order(old_ids: Seq<u64>, new_ids: Seq<u64>, added: Seq<u64>, len: int, k1: int, k2: int)
    requires
        0 <= len <= new_ids.len(),
        new_ids.len() <= usize::MAX,
        old_ids.len() <= usize::MAX,
        0 <= k1 < k2 < reflow_spec(old_ids, new_ids, added, len).len(),
    ensures
        reflow_spec(old_ids, new_ids, added, len)[k1].0 < reflow_spec(old_ids, new_ids, added, len)[k2].0,
    decreases len,
{
    let rest = reflow_spec(old_ids, new_ids, added, len - 1);
    if k2 < rest.len() {
        law_slides_in_new_order(old_ids, new_ids, added, len - 1, k1, k2);
    } else {
        law_slides_only_known_windows(old_ids, new_ids, added, len - 1, k1);
    }
}

} // verus!
