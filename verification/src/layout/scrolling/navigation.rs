//! Moving between columns of the scrolling layout that touch each other.
use vstd::prelude::*;

verus! {

/// A direction on the scrolling layout.
#[derive(Debug, Clone, Copy, PartialEq, Eq, Structural)]
pub enum Direction {
    Left,
    Right,
    Up,
    Down,
}

/// Among the columns marked in `touching`, the one with the lowest order; on a tie, the first
/// of them. `None` when no column is marked.
pub fn lowest_touching(orders: &[u64], touching: &[bool]) -> (found: Option<usize>)
    requires
        orders@.len() == touching@.len(),
    ensures
        match found {
            Some(i) => {
                &&& i < orders@.len()
                &&& touching@[i as int]
                &&& forall|k: int| 0 <= k < orders@.len() && touching@[k] ==> orders@[i as int] <= orders@[k]
                &&& forall|k: int| 0 <= k < i && touching@[k] ==> orders@[i as int] < orders@[k]
            },
            None => forall|k: int| 0 <= k < touching@.len() ==> !touching@[k],
        },
{
    let mut best: Option<usize> = None;
    let mut i: usize = 0;
    while i < orders.len()
        invariant
            i <= orders@.len(),
            orders@.len() == touching@.len(),
            match best {
                Some(b) => {
                    &&& b < i
                    &&& touching@[b as int]
                    &&& forall|k: int| 0 <= k < i && touching@[k] ==> orders@[b as int] <= orders@[k]
                    &&& forall|k: int| 0 <= k < b && touching@[k] ==> orders@[b as int] < orders@[k]
                },
                None => forall|k: int| 0 <= k < i ==> !touching@[k],
            },
        decreases orders@.len() - i,
    {
        if touching[i] {
            match best {
                Some(b) => {
                    if orders[i] < orders[b] {
                        best = Some(i);
                    }
                },
                None => {
                    best = Some(i);
                },
            }
        }
        i = i + 1;
    }
    best
}

} // verus!
