//! Looking windows and columns up by id.
use vstd::prelude::*;

verus! {

/// Finds the first position at which `id` occurs in `ids`.
pub fn index_of(ids: &[u64], id: u64) -> (found: Option<usize>)
    ensures
        match found {
            Some(i) => i < ids@.len() && ids@[i as int] == id && forall|k: int| 0 <= k < i ==> ids@[k] != id,
            None => forall|k: int| 0 <= k < ids@.len() ==> ids@[k] != id,
        },
{
    let mut i: usize = 0;
    while i < ids.len()
        invariant
            i <= ids@.len(),
            forall|k: int| 0 <= k < i ==> ids@[k] != id,
        decreases ids@.len() - i,
    {
        if ids[i] == id {
            return Some(i);
        }
        i = i + 1;
    }
    None
}

/// Whether `id` occurs in `ids`.
pub fn holds_id(ids: &[u64], id: u64) -> (result: bool)
    ensures
        result == ids@.contains(id),
{
    match index_of(ids, id) {
        Some(i) => {
            assert(ids@[i as int] == id);
            true
        },
        None => false,
    }
}

} // verus!
