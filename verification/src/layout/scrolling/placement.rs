//! The combinatorial part of placing columns on the scrolling layout: which columns move
//! together when one of them is resized, and in which order new positions are handed out.
use vstd::prelude::*;
use vstd::set_lib::lemma_len_subset;
use vstd::set_lib::lemma_int_range;
use vstd::set_lib::set_int_range;

verus! {

/// `contacts` is a square table over `n` columns.
pub open spec fn is_square(contacts: Seq<Vec<bool>>, n: int) -> bool {
    &&& contacts.len() == n
    &&& forall|i: int| 0 <= i < n ==> (#[trigger] contacts[i])@.len() == n
}

/// `path` leads from `from` to `to` through columns that touch one after the other.
pub open spec fn is_contact_path(contacts: Seq<Vec<bool>>, path: Seq<usize>, from: usize, to: usize) -> bool {
    &&& path.len() > 0
    &&& path[0] == from
    &&& path.last() == to
    &&& forall|k: int| 0 <= k < path.len() ==> #[trigger] path[k] < contacts.len()
    &&& forall|k: int| 0 <= k < path.len() - 1 ==> contacts[#[trigger] path[k] as int]@[path[k + 1] as int]
}

/// Column `to` can be reached from column `from` through touching columns.
pub open spec fn reachable(contacts: Seq<Vec<bool>>, from: usize, to: usize) -> bool {
    exists|path: Seq<usize>| #[trigger] is_contact_path(contacts, path, from, to)
}

/// Whether `v` holds `x`.
fn holds(v: &Vec<usize>, x: usize) -> (result: bool)
    ensures
        result == v@.contains(x),
{
    let mut i: usize = 0;
    while i < v.len()
        invariant
            i <= v@.len(),
            forall|k: int| 0 <= k < i ==> v@[k] != x,
        decreases v@.len() - i,
    {
        if v[i] == x {
            return true;
        }
        i = i + 1;
    }
    false
}

proof fn lemma_distinct_bounded(s: Seq<usize>, n: int)
    requires
        s.no_duplicates(),
        forall|k: int| 0 <= k < s.len() ==> #[trigger] s[k] < n,
        n >= 0,
    ensures
        s.len() <= n,
{
    let ints = s.map_values(|x: usize| x as int);
    assert forall|a: int, b: int| 0 <= a < ints.len() && 0 <= b < ints.len() && a != b implies ints[a] != ints[b] by {
        assert(s[a] != s[b]);
    }
    assert(ints.no_duplicates());
    ints.unique_seq_to_set();
    lemma_int_range(0, n);
    assert forall|x: int| ints.to_set().contains(x) implies set_int_range(0, n).contains(x) by {
        let k = choose|k: int| 0 <= k < ints.len() && ints[k] == x;
        assert(s[k] < n);
    }
    lemma_len_subset(ints.to_set(), set_int_range(0, n));
}

/// A set of columns that holds `seed` and every column touching one of its members holds every
/// column reachable from `seed`.
proof fn lemma_closed_holds_reachable(contacts: Seq<Vec<bool>>, members: Seq<usize>, seed: usize, path: Seq<usize>, to: usize)
    requires
        members.contains(seed),
        forall|r: int, j: int|
            #![trigger contacts[members[r] as int]@[j]]
            0 <= r < members.len() && 0 <= j < contacts.len() && members[r] < contacts.len()
                && contacts[members[r] as int]@[j] ==> members.contains(j as usize),
        forall|r: int| 0 <= r < members.len() ==> #[trigger] members[r] < contacts.len(),
        is_contact_path(contacts, path, seed, to),
    ensures
        members.contains(to),
    decreases path.len(),
{
    if path.len() > 1 {
        let shorter = path.drop_last();
        let before = shorter.last();
        assert(is_contact_path(contacts, shorter, seed, before)) by {
            assert forall|k: int| 0 <= k < shorter.len() - 1 implies contacts[#[trigger] shorter[k] as int]@[shorter[k + 1] as int] by {
                assert(path[k] == shorter[k] && path[k + 1] == shorter[k + 1]);
            }
        }
        lemma_closed_holds_reachable(contacts, members, seed, shorter, before);
        let r = choose|r: int| 0 <= r < members.len() && members[r] == before;
        assert(contacts[path[path.len() - 2] as int]@[path[path.len() - 1] as int]);
        assert(members.contains(to as usize));
    }
}

/// The columns that move together with `seed`: all columns reachable from it through columns
/// that touch, where `contacts[a][b]` tells whether column `a` touches column `b`. The seed
/// comes first and no column occurs twice.
pub fn contact_component(seed: usize, contacts: &Vec<Vec<bool>>) -> (component: Vec<usize>)
    requires
        seed < contacts@.len(),
        is_square(contacts@, contacts@.len() as int),
    ensures
        component@.len() > 0,
        component@[0] == seed,
        component@.no_duplicates(),
        forall|k: int| 0 <= k < component@.len() ==> #[trigger] component@[k] < contacts@.len(),
        forall|j: usize| j < contacts@.len() ==> (#[trigger] component@.contains(j) <==> reachable(contacts@, seed, j)),
        forall|k: int, j: int|
            #![trigger contacts@[component@[k] as int]@[j]]
            0 <= k < component@.len() && 0 <= j < contacts@.len() && contacts@[component@[k] as int]@[j]
                ==> component@.contains(j as usize),
{
    let n = contacts.len();
    let mut component: Vec<usize> = Vec::new();
    component.push(seed);
    proof {
        assert(is_contact_path(contacts@, seq![seed], seed, seed));
    }
    let mut next: usize = 0;
    while next < component.len()
        invariant
            n == contacts@.len(),
            is_square(contacts@, n as int),
            seed < n,
            component@.len() > 0,
            component@[0] == seed,
            next <= component@.len(),
            component@.no_duplicates(),
            forall|k: int| 0 <= k < component@.len() ==> #[trigger] component@[k] < n,
            forall|k: int| 0 <= k < component@.len() ==> reachable(contacts@, seed, #[trigger] component@[k]),
            forall|r: int, j: int|
                #![trigger contacts@[component@[r] as int]@[j]]
                0 <= r < next && 0 <= j < n && contacts@[component@[r] as int]@[j] ==> component@.contains(j as usize),
        decreases n - next,
    {
        proof {
            lemma_distinct_bounded(component@, n as int);
        }
        let from = component[next];
        let mut idx: usize = 0;
        while idx < n
            invariant
                n == contacts@.len(),
                is_square(contacts@, n as int),
                from < n,
                seed < n,
                next < component@.len(),
                component@[next as int] == from,
                component@.len() > 0,
                component@[0] == seed,
                component@.no_duplicates(),
                forall|k: int| 0 <= k < component@.len() ==> #[trigger] component@[k] < n,
                forall|k: int| 0 <= k < component@.len() ==> reachable(contacts@, seed, #[trigger] component@[k]),
                forall|r: int, j: int|
                    #![trigger contacts@[component@[r] as int]@[j]]
                0 <= r < next && 0 <= j < n && contacts@[component@[r] as int]@[j] ==> component@.contains(j as usize),
                forall|j: int| 0 <= j < idx && contacts@[from as int]@[j] ==> #[trigger] component@.contains(j as usize),
            decreases n - idx,
        {
            assert(contacts@[from as int]@.len() == n);
            if !holds(&component, idx) && contacts[from][idx] {
                let ghost before = component@;
                proof {
                    assert(reachable(contacts@, seed, from));
                    let path = choose|path: Seq<usize>| #[trigger] is_contact_path(contacts@, path, seed, from);
                    let longer = path.push(idx);
                    assert(is_contact_path(contacts@, longer, seed, idx)) by {
                        assert forall|k: int| 0 <= k < longer.len() - 1 implies contacts@[#[trigger] longer[k] as int]@[longer[k + 1] as int] by {
                            if k < path.len() - 1 {
                                assert(longer[k] == path[k] && longer[k + 1] == path[k + 1]);
                            }
                        }
                    }
                }
                component.push(idx);
                proof {
                    assert forall|k: int| 0 <= k < before.len() implies #[trigger] component@[k] == before[k] by {}
                    assert forall|x: usize| before.contains(x) implies #[trigger] component@.contains(x) by {
                        let k = choose|k: int| 0 <= k < before.len() && before[k] == x;
                        assert(component@[k] == x);
                    }
                    assert(component@[before.len() as int] == idx);
                    assert forall|a: int, b: int| 0 <= a < component@.len() && 0 <= b < component@.len() && a != b implies component@[a] != component@[b] by {
                        if a < before.len() && b < before.len() {
                        } else if a < before.len() {
                            assert(before.contains(component@[a]));
                        } else if b < before.len() {
                            assert(before.contains(component@[b]));
                        }
                    }
                    assert forall|j: int| 0 <= j < idx + 1 && contacts@[from as int]@[j] implies #[trigger] component@.contains(j as usize) by {
                        if j < idx {
                            assert(before.contains(j as usize));
                        } else {
                            assert(component@[before.len() as int] == j as usize);
                        }
                    }
                    assert forall|r: int, j: int|
                        #![trigger contacts@[component@[r] as int]@[j]]
                        0 <= r < next && 0 <= j < n && contacts@[component@[r] as int]@[j] implies component@.contains(j as usize) by {
                        assert(component@[r] == before[r]);
                        assert(before.contains(j as usize));
                    }
                }
            } else {
                proof {
                    assert forall|j: int| 0 <= j < idx + 1 && contacts@[from as int]@[j] implies #[trigger] component@.contains(j as usize) by {
                    }
                }
            }
            idx = idx + 1;
        }
        next = next + 1;
    }
    proof {
        assert forall|j: usize| j < n implies (#[trigger] component@.contains(j) <==> reachable(contacts@, seed, j)) by {
            if component@.contains(j) {
                let k = choose|k: int| 0 <= k < component@.len() && component@[k] == j;
            }
            if reachable(contacts@, seed, j) {
                let path = choose|path: Seq<usize>| #[trigger] is_contact_path(contacts@, path, seed, j);
                assert(component@[0] == seed);
                assert(component@.contains(seed));
                assert forall|r: int, i: int|
                    #![trigger contacts@[component@[r] as int]@[i]]
                    0 <= r < component@.len() && 0 <= i < contacts@.len() && component@[r] < contacts@.len()
                        && contacts@[component@[r] as int]@[i] implies component@.contains(i as usize) by {
                }
                lemma_closed_holds_reachable(contacts@, component@, seed, path, j);
            }
        }
        assert forall|k: int, j: int|
            #![trigger contacts@[component@[k] as int]@[j]]
            0 <= k < component@.len() && 0 <= j < contacts@.len() && contacts@[component@[k] as int]@[j]
                implies component@.contains(j as usize) by {
            law_touching_moves_along(contacts@, seed, component@[k], j as usize);
            assert(component@.contains(component@[k]));
        }
    }
    component
}

/// A column touching a column that moves together with the seed moves too.
pub proof fn law_touching_moves_along(contacts: Seq<Vec<bool>>, seed: usize, a: usize, b: usize)
    requires
        reachable(contacts, seed, a),
        a < contacts.len(),
        b < contacts.len(),
        contacts[a as int]@[b as int],
    ensures
        reachable(contacts, seed, b),
{
    let path = choose|path: Seq<usize>| #[trigger] is_contact_path(contacts, path, seed, a);
    let longer = path.push(b);
    assert(is_contact_path(contacts, longer, seed, b)) by {
        assert forall|k: int| 0 <= k < longer.len() - 1 implies contacts[#[trigger] longer[k] as int]@[longer[k + 1] as int] by {
            if k < path.len() - 1 {
                assert(longer[k] == path[k] && longer[k + 1] == path[k + 1]);
            }
        }
    }
}

/// A column other than the seed is reachable only through a reachable column that touches it.
pub proof fn law_reached_through_a_touch(contacts: Seq<Vec<bool>>, seed: usize, j: usize)
    requires
        reachable(contacts, seed, j),
        j != seed,
    ensures
        exists|a: usize| a < contacts.len() && reachable(contacts, seed, a) && #[trigger] contacts[a as int]@[j as int],
{
    let path = choose|path: Seq<usize>| #[trigger] is_contact_path(contacts, path, seed, j);
    assert(path.len() > 1);
    let shorter = path.drop_last();
    let a = shorter.last();
    assert(is_contact_path(contacts, shorter, seed, a)) by {
        assert forall|k: int| 0 <= k < shorter.len() - 1 implies contacts[#[trigger] shorter[k] as int]@[shorter[k + 1] as int] by {
            assert(path[k] == shorter[k] && path[k + 1] == shorter[k + 1]);
        }
    }
    assert(contacts[path[path.len() - 2] as int]@[path[path.len() - 1] as int]);
}

/// The seed always moves, and a seed that touches nothing moves alone.
pub proof fn law_untouching_seed_moves_alone(contacts: Seq<Vec<bool>>, seed: usize, j: usize)
    requires
        seed < contacts.len(),
        forall|b: int| 0 <= b < contacts.len() ==> !#[trigger] contacts[seed as int]@[b],
    ensures
        reachable(contacts, seed, seed),
        reachable(contacts, seed, j) ==> j == seed,
{
    assert(is_contact_path(contacts, seq![seed], seed, seed));
    if reachable(contacts, seed, j) && j != seed {
        let path = choose|path: Seq<usize>| #[trigger] is_contact_path(contacts, path, seed, j);
        assert(path.len() > 1);
        assert(contacts[path[0] as int]@[path[1] as int]);
    }
}

/// Column `i` is placed before column `j`: by order, ties by position.
pub open spec fn placed_before(orders: Seq<u64>, i: int, j: int) -> bool {
    orders[i] < orders[j] || (orders[i] == orders[j] && i < j)
}

/// The order in which columns get their places: by their order, ties kept in input order.
pub fn arrange_order(orders: &[u64]) -> (sorted: Vec<usize>)
    ensures
        sorted@.len() == orders@.len(),
        forall|p: int| 0 <= p < sorted@.len() ==> #[trigger] sorted@[p] < orders@.len(),
        forall|i: usize| i < orders@.len() ==> #[trigger] sorted@.contains(i),
        forall|p: int, q: int|
            0 <= p < q < sorted@.len() ==> placed_before(
                orders@,
                #[trigger] sorted@[p] as int,
                #[trigger] sorted@[q] as int,
            ),
        forall|p: int, q: int|
            0 <= p < q < sorted@.len() ==> orders@[#[trigger] sorted@[p] as int] <= orders@[#[trigger] sorted@[q] as int]
                && (orders@[sorted@[p] as int] == orders@[sorted@[q] as int] ==> sorted@[p] < sorted@[q]),
{
    let mut sorted: Vec<usize> = Vec::new();
    let mut i: usize = 0;
    while i < orders.len()
        invariant
            i <= orders@.len(),
            sorted@.len() == i,
            forall|p: int| 0 <= p < sorted@.len() ==> #[trigger] sorted@[p] < i,
            forall|j: usize| j < i ==> #[trigger] sorted@.contains(j),
            forall|p: int, q: int|
                0 <= p < q < sorted@.len() ==> placed_before(
                    orders@,
                    #[trigger] sorted@[p] as int,
                    #[trigger] sorted@[q] as int,
                ),
        decreases orders@.len() - i,
    {
        let mut at: usize = sorted.len();
        while at > 0 && orders[i] < orders[sorted[at - 1]]
            invariant
                at <= sorted@.len(),
                i < orders@.len(),
                forall|p: int| 0 <= p < sorted@.len() ==> #[trigger] sorted@[p] < i,
                forall|p: int| at <= p < sorted@.len() ==> orders@[i as int] < orders@[#[trigger] sorted@[p] as int],
            decreases at,
        {
            at = at - 1;
        }
        let ghost before = sorted@;
        proof {
            if at > 0 {
                assert forall|p: int| 0 <= p < at implies placed_before(orders@, #[trigger] before[p] as int, i as int) by {
                    if p < at - 1 {
                        assert(placed_before(orders@, before[p] as int, before[at - 1] as int));
                    }
                }
            }
        }
        sorted.insert(at, i);
        proof {
            assert forall|p: int, q: int| 0 <= p < q < sorted@.len() implies placed_before(
                orders@,
                #[trigger] sorted@[p] as int,
                #[trigger] sorted@[q] as int,
            ) by {
                if q < at {
                    assert(sorted@[p] == before[p] && sorted@[q] == before[q]);
                } else if q == at {
                    assert(sorted@[p] == before[p]);
                } else if p < at {
                    assert(sorted@[p] == before[p] && sorted@[q] == before[q - 1]);
                } else if p == at {
                    assert(sorted@[q] == before[q - 1]);
                } else {
                    assert(sorted@[p] == before[p - 1] && sorted@[q] == before[q - 1]);
                }
            }
            assert forall|j: usize| j < i + 1 implies #[trigger] sorted@.contains(j) by {
                if j < i {
                    assert(before.contains(j));
                    let p = choose|p: int| 0 <= p < before.len() && before[p] == j;
                    if p < at {
                        assert(sorted@[p] == j);
                    } else {
                        assert(sorted@[p + 1] == j);
                    }
                } else {
                    assert(sorted@[at as int] == j);
                }
            }
            assert forall|p: int| 0 <= p < sorted@.len() implies #[trigger] sorted@[p] < i + 1 by {
                if p < at {
                    assert(sorted@[p] == before[p]);
                } else if p > at {
                    assert(sorted@[p] == before[p - 1]);
                }
            }
        }
        i = i + 1;
    }
    sorted
}

} // verus!
