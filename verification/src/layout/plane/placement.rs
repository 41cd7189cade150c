//! Grouping of windows on the plane, and the bookkeeping of what was last arranged.
//!
//! Windows of one application form one group, anchored at its first window; a window without an
//! application id forms a group of its own. Groups come in the order of their first window.
use vstd::prelude::*;
use vstd::utf8::encode_utf8;
use vstd::utf8::encode_utf8_decode_utf8;
use crate::layout::anchors::AnchorMap;
use crate::layout::anchors::names_contain;

verus! {

/// The plain values of a window that grouping and change detection read.
#[derive(Debug, Clone)]
pub struct ItemKey {
    pub id: u64,
    pub app_id: Option<String>,
    pub order: u64,
}

/// What decides the group of a window: its application, or, without one, its own order.
pub ghost enum GroupKey {
    App(Seq<char>),
    Window(u64),
}

/// The group key of a window.
pub open spec fn key_of(item: ItemKey) -> GroupKey {
    match item.app_id {
        Some(app) => GroupKey::App(app@),
        None => GroupKey::Window(item.order),
    }
}

/// Lexicographic order on byte strings: a proper prefix comes first.
pub open spec fn bytes_lt(a: Seq<u8>, b: Seq<u8>) -> bool
    decreases a.len(),
{
    if a.len() == 0 {
        b.len() > 0
    } else if b.len() == 0 {
        false
    } else if a[0] != b[0] {
        a[0] < b[0]
    } else {
        bytes_lt(a.drop_first(), b.drop_first())
    }
}

/// The order of group keys: application ids by their UTF-8 bytes, all before windows without
/// one, and those by their order.
pub open spec fn key_lt(a: GroupKey, b: GroupKey) -> bool {
    match a {
        GroupKey::App(x) => match b {
            GroupKey::App(y) => bytes_lt(encode_utf8(x), encode_utf8(y)),
            GroupKey::Window(_) => true,
        },
        GroupKey::Window(m) => match b {
            GroupKey::App(_) => false,
            GroupKey::Window(n) => m < n,
        },
    }
}

/// Inside a group, window `i` comes before window `j`: by order, then by position in the input.
pub open spec fn member_before(items: Seq<ItemKey>, i: int, j: int) -> bool {
    items[i].order < items[j].order || (items[i].order == items[j].order && i < j)
}

/// The group anchored at window `i` comes before the one anchored at window `j`: by order,
/// then by group key.
pub open spec fn group_before(items: Seq<ItemKey>, i: int, j: int) -> bool {
    items[i].order < items[j].order || (items[i].order == items[j].order && key_lt(
        key_of(items[i]),
        key_of(items[j]),
    ))
}

/// The order in which grouping visits windows: by order, then group key, then position.
pub open spec fn visit_before(items: Seq<ItemKey>, i: int, j: int) -> bool {
    ||| items[i].order < items[j].order
    ||| items[i].order == items[j].order && key_lt(key_of(items[i]), key_of(items[j]))
    ||| items[i].order == items[j].order && key_of(items[i]) == key_of(items[j]) && i < j
}

proof fn lemma_bytes_lt_irreflexive(a: Seq<u8>)
    ensures
        !bytes_lt(a, a),
    decreases a.len(),
{
    if a.len() > 0 {
        lemma_bytes_lt_irreflexive(a.drop_first());
    }
}

proof fn lemma_bytes_lt_transitive(a: Seq<u8>, b: Seq<u8>, c: Seq<u8>)
    requires
        bytes_lt(a, b),
        bytes_lt(b, c),
    ensures
        bytes_lt(a, c),
    decreases a.len(),
{
    if a.len() > 0 && b.len() > 0 && c.len() > 0 && a[0] == b[0] && b[0] == c[0] {
        lemma_bytes_lt_transitive(a.drop_first(), b.drop_first(), c.drop_first());
    }
}

proof fn lemma_bytes_lt_total(a: Seq<u8>, b: Seq<u8>)
    requires
        a != b,
    ensures
        bytes_lt(a, b) || bytes_lt(b, a),
    decreases a.len(),
{
    if a.len() > 0 && b.len() > 0 && a[0] == b[0] {
        if a.drop_first() == b.drop_first() {
            assert(a =~= seq![a[0]] + a.drop_first());
            assert(b =~= seq![b[0]] + b.drop_first());
        }
        lemma_bytes_lt_total(a.drop_first(), b.drop_first());
    } else if a.len() == 0 && b.len() == 0 {
        assert(a =~= b);
    }
}

proof fn lemma_bytes_lt_skip(a: Seq<u8>, b: Seq<u8>, i: int)
    requires
        0 <= i <= a.len(),
        i <= b.len(),
        a.take(i) == b.take(i),
    ensures
        bytes_lt(a, b) == bytes_lt(a.skip(i), b.skip(i)),
    decreases i,
{
    if i == 0 {
        assert(a.skip(0) =~= a);
        assert(b.skip(0) =~= b);
    } else {
        assert(a[0] == a.take(i)[0]);
        assert(b[0] == b.take(i)[0]);
        assert(a.drop_first().take(i - 1) =~= a.take(i).drop_first());
        assert(b.drop_first().take(i - 1) =~= b.take(i).drop_first());
        lemma_bytes_lt_skip(a.drop_first(), b.drop_first(), i - 1);
        assert(a.drop_first().skip(i - 1) =~= a.skip(i));
        assert(b.drop_first().skip(i - 1) =~= b.skip(i));
    }
}

proof fn lemma_key_lt_irreflexive(k: GroupKey)
    ensures
        !key_lt(k, k),
{
    if let GroupKey::App(x) = k {
        lemma_bytes_lt_irreflexive(encode_utf8(x));
    }
}

proof fn lemma_key_lt_transitive(a: GroupKey, b: GroupKey, c: GroupKey)
    requires
        key_lt(a, b),
        key_lt(b, c),
    ensures
        key_lt(a, c),
{
    if let GroupKey::App(x) = a {
        if let GroupKey::App(y) = b {
            if let GroupKey::App(z) = c {
                lemma_bytes_lt_transitive(encode_utf8(x), encode_utf8(y), encode_utf8(z));
            }
        }
    }
}

proof fn lemma_key_lt_total(a: GroupKey, b: GroupKey)
    requires
        a != b,
    ensures
        key_lt(a, b) || key_lt(b, a),
{
    if let GroupKey::App(x) = a {
        if let GroupKey::App(y) = b {
            encode_utf8_decode_utf8(x);
            encode_utf8_decode_utf8(y);
            lemma_bytes_lt_total(encode_utf8(x), encode_utf8(y));
        }
    }
}

proof fn lemma_visit_before_irreflexive(items: Seq<ItemKey>, i: int)
    ensures
        !visit_before(items, i, i),
{
    lemma_key_lt_irreflexive(key_of(items[i]));
}

proof fn lemma_visit_before_transitive(items: Seq<ItemKey>, i: int, j: int, k: int)
    requires
        visit_before(items, i, j),
        visit_before(items, j, k),
    ensures
        visit_before(items, i, k),
{
    let (a, b, c) = (key_of(items[i]), key_of(items[j]), key_of(items[k]));
    if key_lt(a, b) && key_lt(b, c) {
        lemma_key_lt_transitive(a, b, c);
    }
}

proof fn lemma_visit_before_total(items: Seq<ItemKey>, i: int, j: int)
    requires
        i != j,
    ensures
        visit_before(items, i, j) || visit_before(items, j, i),
{
    let (a, b) = (key_of(items[i]), key_of(items[j]));
    if a != b {
        lemma_key_lt_total(a, b);
    }
}

/// The outcome of comparing two application ids.
enum Precedence {
    Before,
    Same,
    After,
}

/// Compares two application ids by their UTF-8 bytes, as `String`'s order does.
fn compare_names(a: &String, b: &String) -> (result: Precedence)
    ensures
        match result {
            Precedence::Before => bytes_lt(encode_utf8(a@), encode_utf8(b@)),
            Precedence::Same => a@ == b@,
            Precedence::After => bytes_lt(encode_utf8(b@), encode_utf8(a@)),
        },
{
    let x = a.as_str().as_bytes();
    let y = b.as_str().as_bytes();
    let ghost ea = encode_utf8(a@);
    let ghost eb = encode_utf8(b@);
    assert(x@ == ea);
    assert(y@ == eb);
    let mut i: usize = 0;
    while i < x.len() && i < y.len() && x[i] == y[i]
        invariant
            x@ == ea,
            y@ == eb,
            i <= x@.len(),
            i <= y@.len(),
            x@.take(i as int) == y@.take(i as int),
        decreases x@.len() - i,
    {
        assert(x@.take(i + 1) =~= x@.take(i as int).push(x@[i as int]));
        assert(y@.take(i + 1) =~= y@.take(i as int).push(y@[i as int]));
        i = i + 1;
    }
    proof {
        lemma_bytes_lt_skip(ea, eb, i as int);
        lemma_bytes_lt_skip(eb, ea, i as int);
    }
    if i < x.len() && i < y.len() {
        if x[i] < y[i] {
            Precedence::Before
        } else {
            Precedence::After
        }
    } else if i < y.len() {
        Precedence::Before
    } else if i < x.len() {
        Precedence::After
    } else {
        proof {
            assert(ea =~= ea.take(i as int));
            assert(eb =~= eb.take(i as int));
            encode_utf8_decode_utf8(a@);
            encode_utf8_decode_utf8(b@);
        }
        Precedence::Same
    }
}

/// Whether windows `i` and `j` belong to the same group.
fn same_key(items: &[ItemKey], i: usize, j: usize) -> (result: bool)
    requires
        i < items@.len(),
        j < items@.len(),
    ensures
        result == (key_of(items@[i as int]) == key_of(items@[j as int])),
{
    match (&items[i].app_id, &items[j].app_id) {
        (Some(a), Some(b)) => *a == *b,
        (None, None) => items[i].order == items[j].order,
        _ => false,
    }
}

/// Whether grouping visits window `i` before window `j`.
fn visits_before(items: &[ItemKey], i: usize, j: usize) -> (result: bool)
    requires
        i < items@.len(),
        j < items@.len(),
    ensures
        result == visit_before(items@, i as int, j as int),
{
    let a = &items[i];
    let b = &items[j];
    if a.order != b.order {
        return a.order < b.order;
    }
    proof {
        lemma_key_lt_irreflexive(key_of(items@[i as int]));
    }
    match (&a.app_id, &b.app_id) {
        (Some(x), Some(y)) => match compare_names(x, y) {
            Precedence::Before => {
                proof {
                    lemma_bytes_lt_irreflexive(encode_utf8(x@));
                }
                true
            },
            Precedence::Same => i < j,
            Precedence::After => {
                proof {
                    lemma_bytes_lt_irreflexive(encode_utf8(x@));
                    if bytes_lt(encode_utf8(x@), encode_utf8(y@)) {
                        lemma_bytes_lt_transitive(encode_utf8(x@), encode_utf8(y@), encode_utf8(x@));
                    }
                }
                false
            },
        },
        (Some(_), None) => true,
        (None, Some(_)) => false,
        (None, None) => i < j,
    }
}

/// The indices of all windows, in the order in which grouping visits them.
fn visit_order(items: &[ItemKey]) -> (sorted: Vec<usize>)
    ensures
        sorted@.len() == items@.len(),
        forall|p: int| 0 <= p < sorted@.len() ==> #[trigger] sorted@[p] < items@.len(),
        forall|i: usize| i < items@.len() ==> #[trigger] sorted@.contains(i),
        forall|p: int, q: int|
            0 <= p < q < sorted@.len() ==> visit_before(
                items@,
                #[trigger] sorted@[p] as int,
                #[trigger] sorted@[q] as int,
            ),
{
    let mut sorted: Vec<usize> = Vec::new();
    let mut i: usize = 0;
    while i < items.len()
        invariant
            i <= items@.len(),
            sorted@.len() == i,
            forall|p: int| 0 <= p < sorted@.len() ==> #[trigger] sorted@[p] < i,
            forall|j: usize| j < i ==> #[trigger] sorted@.contains(j),
            forall|p: int, q: int|
                0 <= p < q < sorted@.len() ==> visit_before(
                    items@,
                    #[trigger] sorted@[p] as int,
                    #[trigger] sorted@[q] as int,
                ),
        decreases items@.len() - i,
    {
        let mut at: usize = 0;
        while at < sorted.len() && !visits_before(items, i, sorted[at])
            invariant
                at <= sorted@.len(),
                i < items@.len(),
                forall|p: int| 0 <= p < sorted@.len() ==> #[trigger] sorted@[p] < i,
                forall|p: int| 0 <= p < at ==> !visit_before(items@, i as int, #[trigger] sorted@[p] as int),
            decreases sorted@.len() - at,
        {
            at = at + 1;
        }
        let ghost before = sorted@;
        sorted.insert(at, i);
        proof {
            assert forall|p: int| 0 <= p < at implies visit_before(items@, #[trigger] before[p] as int, i as int) by {
                lemma_visit_before_total(items@, before[p] as int, i as int);
            }
            assert forall|p: int, q: int| 0 <= p < q < sorted@.len() implies visit_before(
                items@,
                #[trigger] sorted@[p] as int,
                #[trigger] sorted@[q] as int,
            ) by {
                if q < at {
                    assert(sorted@[p] == before[p] && sorted@[q] == before[q]);
                } else if q == at {
                    assert(sorted@[p] == before[p]);
                } else if p < at {
                    assert(sorted@[p] == before[p] && sorted@[q] == before[q - 1]);
                    assert(visit_before(items@, i as int, before[at as int] as int));
                    if q - 1 > at {
                        lemma_visit_before_transitive(items@, i as int, before[at as int] as int, before[q - 1] as int);
                    }
                    lemma_visit_before_transitive(items@, before[p] as int, i as int, before[q - 1] as int);
                } else if p == at {
                    assert(sorted@[q] == before[q - 1]);
                    assert(visit_before(items@, i as int, before[at as int] as int));
                    if q - 1 > at {
                        lemma_visit_before_transitive(items@, i as int, before[at as int] as int, before[q - 1] as int);
                    }
                } else {
                    assert(sorted@[p] == before[p - 1] && sorted@[q] == before[q - 1]);
                }
            }
            assert forall|j: usize| j < i + 1 implies #[trigger] sorted@.contains(j) by {
                if j < i {
                    assert(before.contains(j));
                    let p = choose|p: int| 0 <= p < before.len() && before[p] == j;
                    if p < at {
                        assert(sorted@[p] == j);
                    } else {
                        assert(sorted@[p + 1] == j);
                    }
                } else {
                    assert(sorted@[at as int] == j);
                }
            }
            assert forall|p: int| 0 <= p < sorted@.len() implies #[trigger] sorted@[p] < i + 1 by {
                if p < at {
                    assert(sorted@[p] == before[p]);
                } else if p > at {
                    assert(sorted@[p] == before[p - 1]);
                }
            }
        }
        i = i + 1;
    }
    sorted
}

/// Window `i` is in one of the groups.
pub open spec fn is_grouped(groups: Seq<Seq<usize>>, i: int) -> bool {
    exists|g: int, k: int| 0 <= g < groups.len() && 0 <= k < groups[g].len() && #[trigger] groups[g][k] == i
}

spec fn is_placed(groups: Seq<Vec<usize>>, i: usize) -> bool {
    exists|g: int, k: int| 0 <= g < groups.len() && 0 <= k < groups[g]@.len() && #[trigger] groups[g]@[k] == i
}

/// `groups` splits the windows into their groups, in the order in which the arranging code places
/// them: every window occurs exactly once; a group holds exactly the windows of one group key;
/// inside a group windows come by order, then by position; groups come by the order of their
/// first window, then by group key.
pub open spec fn is_grouping(items: Seq<ItemKey>, groups: Seq<Seq<usize>>) -> bool {
    &&& forall|g: int| 0 <= g < groups.len() ==> (#[trigger] groups[g]).len() > 0
    &&& forall|g: int, k: int|
        0 <= g < groups.len() && 0 <= k < groups[g].len() ==> #[trigger] groups[g][k] < items.len()
    &&& forall|i: int| 0 <= i < items.len() ==> #[trigger] is_grouped(groups, i)
    &&& forall|g1: int, k1: int, g2: int, k2: int|
        0 <= g1 < groups.len() && 0 <= k1 < groups[g1].len() && 0 <= g2 < groups.len() && 0 <= k2
            < groups[g2].len() && #[trigger] groups[g1][k1] == #[trigger] groups[g2][k2] ==> g1 == g2
            && k1 == k2
    &&& forall|g: int, k: int|
        0 <= g < groups.len() && 0 <= k < groups[g].len() ==> key_of(items[#[trigger] groups[g][k] as int])
            == key_of(items[groups[g][0] as int])
    &&& forall|g1: int, g2: int|
        0 <= g1 < groups.len() && 0 <= g2 < groups.len() && g1 != g2 ==> key_of(
            items[#[trigger] groups[g1][0] as int],
        ) != key_of(items[#[trigger] groups[g2][0] as int])
    &&& forall|g: int, a: int, b: int|
        0 <= g < groups.len() && 0 <= a < b < groups[g].len() ==> member_before(
            items,
            #[trigger] groups[g][a] as int,
            #[trigger] groups[g][b] as int,
        )
    &&& forall|g1: int, g2: int|
        0 <= g1 < g2 < groups.len() ==> group_before(
            items,
            #[trigger] groups[g1][0] as int,
            #[trigger] groups[g2][0] as int,
        )
}

/// The groups of a vector of groups, as sequences.
pub open spec fn groups_view(groups: Seq<Vec<usize>>) -> Seq<Seq<usize>> {
    groups.map_values(|group: Vec<usize>| group@)
}

spec fn visit_sorted(items: Seq<ItemKey>, sorted: Seq<usize>) -> bool {
    &&& sorted.len() == items.len()
    &&& forall|p: int| 0 <= p < sorted.len() ==> #[trigger] sorted[p] < items.len()
    &&& forall|p: int, q: int|
        0 <= p < q < sorted.len() ==> visit_before(
            items,
            #[trigger] sorted[p] as int,
            #[trigger] sorted[q] as int,
        )
}

/// `groups` groups the first `t` windows of `sorted`, in visiting order.
spec fn groups_prefix(items: Seq<ItemKey>, sorted: Seq<usize>, t: int, groups: Seq<Vec<usize>>) -> bool {
    &&& forall|g: int| 0 <= g < groups.len() ==> (#[trigger] groups[g])@.len() > 0
    &&& forall|g: int, k: int|
        0 <= g < groups.len() && 0 <= k < groups[g]@.len() ==> exists|p: int|
            0 <= p < t && sorted[p] == #[trigger] groups[g]@[k]
    &&& forall|p: int| 0 <= p < t ==> is_placed(groups, #[trigger] sorted[p])
    &&& forall|g1: int, k1: int, g2: int, k2: int|
        0 <= g1 < groups.len() && 0 <= k1 < groups[g1]@.len() && 0 <= g2 < groups.len() && 0 <= k2
            < groups[g2]@.len() && #[trigger] groups[g1]@[k1] == #[trigger] groups[g2]@[k2] ==> g1
            == g2 && k1 == k2
    &&& forall|g: int, k: int|
        0 <= g < groups.len() && 0 <= k < groups[g]@.len() ==> key_of(
            items[#[trigger] groups[g]@[k] as int],
        ) == key_of(items[groups[g]@[0] as int])
    &&& forall|g1: int, g2: int|
        0 <= g1 < groups.len() && 0 <= g2 < groups.len() && g1 != g2 ==> key_of(
            items[#[trigger] groups[g1]@[0] as int],
        ) != key_of(items[#[trigger] groups[g2]@[0] as int])
    &&& forall|g: int, a: int, b: int|
        0 <= g < groups.len() && 0 <= a < b < groups[g]@.len() ==> visit_before(
            items,
            #[trigger] groups[g]@[a] as int,
            #[trigger] groups[g]@[b] as int,
        )
    &&& forall|g1: int, g2: int|
        0 <= g1 < g2 < groups.len() ==> visit_before(
            items,
            #[trigger] groups[g1]@[0] as int,
            #[trigger] groups[g2]@[0] as int,
        )
}

/// The group of the window visited first whose key is that of window `idx`, if any.
fn find_group(items: &[ItemKey], groups: &Vec<Vec<usize>>, idx: usize) -> (found: Option<usize>)
    requires
        idx < items@.len(),
        forall|g: int| 0 <= g < groups@.len() ==> (#[trigger] groups@[g])@.len() > 0 && groups@[g]@[0]
            < items@.len(),
    ensures
        match found {
            Some(g) => g < groups@.len() && key_of(items@[groups@[g as int]@[0] as int]) == key_of(
                items@[idx as int],
            ),
            None => forall|h: int|
                0 <= h < groups@.len() ==> key_of(items@[#[trigger] groups@[h]@[0] as int]) != key_of(
                    items@[idx as int],
                ),
        },
{
    let mut g: usize = 0;
    while g < groups.len()
        invariant
            g <= groups@.len(),
            idx < items@.len(),
            forall|g: int| 0 <= g < groups@.len() ==> (#[trigger] groups@[g])@.len() > 0 && groups@[g]@[0]
                < items@.len(),
            forall|h: int|
                0 <= h < g ==> key_of(items@[#[trigger] groups@[h]@[0] as int]) != key_of(
                    items@[idx as int],
                ),
        decreases groups@.len() - g,
    {
        assert(groups@[g as int]@.len() > 0);
        if same_key(items, groups[g][0], idx) {
            return Some(g);
        }
        g = g + 1;
    }
    None
}

/// Adds the window visited at step `t` to its group, or opens a group for it.
fn place_next(groups: &mut Vec<Vec<usize>>, items: &[ItemKey], sorted: &Vec<usize>, t: usize)
    requires
        visit_sorted(items@, sorted@),
        t < sorted@.len(),
        groups_prefix(items@, sorted@, t as int, old(groups)@),
    ensures
        groups_prefix(items@, sorted@, t + 1, final(groups)@),
{
    let ghost before = groups@;
    let idx = sorted[t];
    proof {
        assert forall|g: int| 0 <= g < before.len() implies (#[trigger] before[g])@.len() > 0 && before[g]@[0]
            < items@.len() by {
            assert(before[g]@.len() > 0);
            let p = choose|p: int| 0 <= p < t && sorted@[p] == #[trigger] before[g]@[0];
        }
        assert forall|g: int, k: int| 0 <= g < before.len() && 0 <= k < before[g]@.len() implies
            visit_before(items@, #[trigger] before[g]@[k] as int, idx as int) && before[g]@[k] != idx by {
            let p = choose|p: int| 0 <= p < t && sorted@[p] == #[trigger] before[g]@[k];
            assert(visit_before(items@, sorted@[p] as int, sorted@[t as int] as int));
            lemma_visit_before_irreflexive(items@, idx as int);
        }
    }
    match find_group(items, groups, idx) {
        Some(g) => {
            let mut group: Vec<usize> = Vec::new();
            groups.set_and_swap(g, &mut group);
            let ghost old_group = group@;
            group.push(idx);
            groups.set(g, group);
            proof {
                assert(old_group == before[g as int]@);
                assert forall|h: int| 0 <= h < groups@.len() && h != g implies #[trigger] groups@[h] == before[h] by {}
                assert(groups@[g as int]@ == old_group.push(idx));
                assert forall|h: int| 0 <= h < groups@.len() implies (#[trigger] groups@[h])@[0] == before[h]@[0] by {
                    if h == g {
                        assert(groups@[h]@[0] == old_group[0]);
                    }
                }
                assert forall|h: int, k: int|
                    0 <= h < groups@.len() && 0 <= k < groups@[h]@.len() implies exists|p: int|
                        0 <= p < t + 1 && sorted@[p] == #[trigger] groups@[h]@[k] by {
                    if h == g && k == old_group.len() {
                        assert(sorted@[t as int] == groups@[h]@[k]);
                    } else {
                        assert(groups@[h]@[k] == before[h]@[k]);
                        let p = choose|p: int| 0 <= p < t && sorted@[p] == #[trigger] before[h]@[k];
                    }
                }
                assert forall|p: int| 0 <= p < t + 1 implies is_placed(groups@, #[trigger] sorted@[p]) by {
                    if p == t {
                        assert(groups@[g as int]@[old_group.len() as int] == sorted@[p]);
                    } else {
                        assert(is_placed(before, sorted@[p]));
                        let (h, k) = choose|h: int, k: int|
                            0 <= h < before.len() && 0 <= k < before[h]@.len() && #[trigger] before[h]@[k]
                                == sorted@[p];
                        assert(groups@[h]@[k] == sorted@[p]);
                    }
                }
                assert forall|h: int, k: int|
                    0 <= h < groups@.len() && 0 <= k < groups@[h]@.len() implies key_of(
                        items@[#[trigger] groups@[h]@[k] as int],
                    ) == key_of(items@[groups@[h]@[0] as int]) by {
                    if !(h == g && k == old_group.len()) {
                        assert(groups@[h]@[k] == before[h]@[k]);
                    }
                }
                assert forall|h: int, a: int, b: int|
                    0 <= h < groups@.len() && 0 <= a < b < groups@[h]@.len() implies visit_before(
                        items@,
                        #[trigger] groups@[h]@[a] as int,
                        #[trigger] groups@[h]@[b] as int,
                    ) by {
                    assert(groups@[h]@[a] == before[h]@[a]);
                    if !(h == g && b == old_group.len()) {
                        assert(groups@[h]@[b] == before[h]@[b]);
                    }
                }
                assert forall|g1: int, k1: int, g2: int, k2: int|
                    0 <= g1 < groups@.len() && 0 <= k1 < groups@[g1]@.len() && 0 <= g2 < groups@.len()
                        && 0 <= k2 < groups@[g2]@.len() && #[trigger] groups@[g1]@[k1]
                        == #[trigger] groups@[g2]@[k2] implies g1 == g2 && k1 == k2 by {
                    let new1 = g1 == g && k1 == old_group.len();
                    let new2 = g2 == g && k2 == old_group.len();
                    if !new1 {
                        assert(groups@[g1]@[k1] == before[g1]@[k1]);
                    }
                    if !new2 {
                        assert(groups@[g2]@[k2] == before[g2]@[k2]);
                    }
                }
            }
        },
        None => {
            let mut group: Vec<usize> = Vec::new();
            group.push(idx);
            groups.push(group);
            proof {
                let n = before.len() as int;
                assert forall|h: int| 0 <= h < n implies #[trigger] groups@[h] == before[h] by {}
                assert(groups@[n]@ == seq![idx]);
                assert forall|h: int, k: int|
                    0 <= h < groups@.len() && 0 <= k < groups@[h]@.len() implies exists|p: int|
                        0 <= p < t + 1 && sorted@[p] == #[trigger] groups@[h]@[k] by {
                    if h == n {
                        assert(sorted@[t as int] == groups@[h]@[k]);
                    } else {
                        assert(groups@[h]@[k] == before[h]@[k]);
                        let p = choose|p: int| 0 <= p < t && sorted@[p] == #[trigger] before[h]@[k];
                    }
                }
                assert forall|p: int| 0 <= p < t + 1 implies is_placed(groups@, #[trigger] sorted@[p]) by {
                    if p == t {
                        assert(groups@[n]@[0] == sorted@[p]);
                    } else {
                        assert(is_placed(before, sorted@[p]));
                        let (h, k) = choose|h: int, k: int|
                            0 <= h < before.len() && 0 <= k < before[h]@.len() && #[trigger] before[h]@[k]
                                == sorted@[p];
                        assert(groups@[h]@[k] == sorted@[p]);
                    }
                }
                assert forall|g1: int, g2: int|
                    0 <= g1 < groups@.len() && 0 <= g2 < groups@.len() && g1 != g2 implies key_of(
                        items@[#[trigger] groups@[g1]@[0] as int],
                    ) != key_of(items@[#[trigger] groups@[g2]@[0] as int]) by {
                    if g1 < n && g2 < n {
                        assert(groups@[g1] == before[g1] && groups@[g2] == before[g2]);
                    } else if g1 == n {
                        assert(groups@[g2] == before[g2]);
                    } else {
                        assert(groups@[g1] == before[g1]);
                    }
                }
                assert forall|h: int, a: int, b: int|
                    0 <= h < groups@.len() && 0 <= a < b < groups@[h]@.len() implies visit_before(
                        items@,
                        #[trigger] groups@[h]@[a] as int,
                        #[trigger] groups@[h]@[b] as int,
                    ) by {
                    assert(h < n);
                    assert(groups@[h] == before[h]);
                }
                assert forall|g1: int, g2: int| 0 <= g1 < g2 < groups@.len() implies visit_before(
                    items@,
                    #[trigger] groups@[g1]@[0] as int,
                    #[trigger] groups@[g2]@[0] as int,
                ) by {
                    assert(groups@[g1] == before[g1]);
                    if g2 < n {
                        assert(groups@[g2] == before[g2]);
                    }
                }
                assert forall|g1: int, k1: int, g2: int, k2: int|
                    0 <= g1 < groups@.len() && 0 <= k1 < groups@[g1]@.len() && 0 <= g2 < groups@.len()
                        && 0 <= k2 < groups@[g2]@.len() && #[trigger] groups@[g1]@[k1]
                        == #[trigger] groups@[g2]@[k2] implies g1 == g2 && k1 == k2 by {
                    if g1 < n {
                        assert(groups@[g1] == before[g1]);
                    }
                    if g2 < n {
                        assert(groups@[g2] == before[g2]);
                    }
                }
            }
        },
    }
}

/// Splits the windows into groups: the windows of one application form one group, a window
/// without an application id forms a group with the other such windows of the same order.
/// Each group is given by the indices of its windows in `items`.
pub fn group_items(items: &[ItemKey]) -> (groups: Vec<Vec<usize>>)
    ensures
        is_grouping(items@, groups_view(groups@)),
{
    let sorted = visit_order(items);
    let mut groups: Vec<Vec<usize>> = Vec::new();
    let mut t: usize = 0;
    while t < sorted.len()
        invariant
            t <= sorted@.len(),
            visit_sorted(items@, sorted@),
            forall|i: usize| i < items@.len() ==> #[trigger] sorted@.contains(i),
            groups_prefix(items@, sorted@, t as int, groups@),
        decreases sorted@.len() - t,
    {
        place_next(&mut groups, items, &sorted, t);
        t = t + 1;
    }
    proof {
        let view = groups_view(groups@);
        assert forall|g: int| 0 <= g < view.len() implies #[trigger] view[g] == groups@[g]@ by {}
        assert forall|i: int| 0 <= i < items@.len() implies #[trigger] is_grouped(view, i) by {
            assert(sorted@.contains(i as usize));
            let p = choose|p: int| 0 <= p < sorted@.len() && sorted@[p] == i as usize;
            assert(is_placed(groups@, sorted@[p]));
            let (g, k) = choose|g: int, k: int|
                0 <= g < groups@.len() && 0 <= k < groups@[g]@.len() && #[trigger] groups@[g]@[k] == sorted@[p];
            assert(view[g][k] == i);
        }
        assert forall|g: int, k: int| 0 <= g < view.len() && 0 <= k < view[g].len() implies
            #[trigger] view[g][k] < items@.len() by {
            let p = choose|p: int| 0 <= p < t && sorted@[p] == #[trigger] groups@[g]@[k];
        }
        assert forall|g: int, a: int, b: int|
            0 <= g < view.len() && 0 <= a < b < view[g].len() implies member_before(
                items@,
                #[trigger] view[g][a] as int,
                #[trigger] view[g][b] as int,
            ) by {
            assert(visit_before(items@, groups@[g]@[a] as int, groups@[g]@[b] as int));
            lemma_key_lt_irreflexive(key_of(items@[view[g][0] as int]));
        }
        assert forall|g1: int, g2: int| 0 <= g1 < g2 < view.len() implies group_before(
            items@,
            #[trigger] view[g1][0] as int,
            #[trigger] view[g2][0] as int,
        ) by {
            assert(visit_before(items@, groups@[g1]@[0] as int, groups@[g2]@[0] as int));
        }
    }
    groups
}

/// What change detection remembers of a window: its id and its order.
pub open spec fn record_of(item: ItemKey) -> (u64, u64) {
    (item.id, item.order)
}

/// Whether the windows differ from what was last arranged: another number of them, or one whose
/// id and order were not among those arranged.
pub open spec fn differs(recorded: Seq<(u64, u64)>, items: Seq<ItemKey>) -> bool {
    recorded.len() != items.len() || exists|i: int|
        0 <= i < items.len() && !recorded.contains(#[trigger] record_of(items[i]))
}

/// Whether the window carries the application id `name`.
pub open spec fn carries(item: ItemKey, name: Seq<char>) -> bool {
    match item.app_id {
        Some(app) => app@ == name,
        None => false,
    }
}

/// The application ids that some window carries.
pub open spec fn live_apps(items: Seq<ItemKey>) -> Set<Seq<char>> {
    Set::new(
        |name: Seq<char>|
            exists|i: int| 0 <= i < items.len() && carries(#[trigger] items[i], name),
    )
}

/// The arranging state of the plane: the anchor of each application and the windows that were
/// last arranged.
pub struct State<P> {
    anchors: AnchorMap<P>,
    groups: Vec<(u64, u64)>,
}

impl<P> State<P> {
    /// The id and order of each window that was last arranged.
    pub closed spec fn recorded(&self) -> Seq<(u64, u64)> {
        self.groups@
    }

    /// The anchor of each application.
    pub closed spec fn anchors(&self) -> Map<Seq<char>, P> {
        self.anchors.view()
    }

    /// A state with no anchors that has arranged nothing yet.
    pub fn new() -> (state: Self)
        ensures
            state.recorded() == Seq::<(u64, u64)>::empty(),
            state.anchors() == Map::<Seq<char>, P>::empty(),
    {
        State { anchors: AnchorMap::new(), groups: Vec::new() }
    }

    /// Whether the windows must be arranged again.
    pub fn needs_arrange(&self, items: &[ItemKey]) -> (result: bool)
        ensures
            result == differs(self.recorded(), items@),
            self.recorded().len() != items@.len() ==> result,
            forall|i: int|
                0 <= i < items@.len() && !self.recorded().contains((#[trigger] items@[i].id, items@[i].order))
                    ==> result,
            result ==> self.recorded().len() != items@.len() || exists|i: int|
                0 <= i < items@.len() && !self.recorded().contains((#[trigger] items@[i].id, items@[i].order)),
    {
        if self.groups.len() != items.len() {
            return true;
        }
        let mut i: usize = 0;
        while i < items.len()
            invariant
                i <= items@.len(),
                forall|j: int| 0 <= j < i ==> self.groups@.contains((#[trigger] items@[j].id, items@[j].order)),
            decreases items@.len() - i,
        {
            let key = (items[i].id, items[i].order);
            let mut k: usize = 0;
            let mut seen = false;
            while k < self.groups.len()
                invariant
                    k <= self.groups@.len(),
                    i < items@.len(),
                    key == (items@[i as int].id, items@[i as int].order),
                    seen == exists|m: int| 0 <= m < k && self.groups@[m] == key,
                decreases self.groups@.len() - k,
            {
                if self.groups[k].0 == key.0 && self.groups[k].1 == key.1 {
                    seen = true;
                }
                k = k + 1;
            }
            if !seen {
                proof {
                    assert(!self.groups@.contains((items@[i as int].id, items@[i as int].order)));
                    assert(record_of(items@[i as int]) == (items@[i as int].id, items@[i as int].order));
                }
                return true;
            }
            i = i + 1;
        }
        false
    }

    /// Forgets what was arranged, so that the next check asks for a new arrangement.
    pub fn invalidate(&mut self)
        ensures
            final(self).recorded() == Seq::<(u64, u64)>::empty(),
            final(self).anchors() == old(self).anchors(),
    {
        self.groups.clear();
    }

    /// Remembers the windows that were just arranged.
    pub fn record(&mut self, items: &[ItemKey])
        ensures
            final(self).recorded() == items@.map_values(|item: ItemKey| record_of(item)),
            final(self).recorded().len() == items@.len(),
            forall|i: int| 0 <= i < items@.len() ==> final(self).recorded()[i] == (#[trigger] items@[i].id, items@[i].order),
            final(self).anchors() == old(self).anchors(),
    {
        let mut groups: Vec<(u64, u64)> = Vec::new();
        let mut i: usize = 0;
        while i < items.len()
            invariant
                i <= items@.len(),
                groups@ == items@.take(i as int).map_values(|item: ItemKey| record_of(item)),
            decreases items@.len() - i,
        {
            groups.push((items[i].id, items[i].order));
            i = i + 1;
            assert(items@.take(i as int).drop_last() =~= items@.take(i - 1));
        }
        assert(items@.take(i as int) =~= items@);
        self.groups = groups;
    }

    /// Forgets the anchors of applications that no window carries any more.
    pub fn retain_live_anchors(&mut self, items: &[ItemKey])
        ensures
            final(self).recorded() == old(self).recorded(),
            final(self).anchors() == old(self).anchors().restrict(live_apps(items@)),
            forall|i: int|
                0 <= i < items@.len() && (#[trigger] items@[i]).app_id is Some && old(self).anchors().contains_key(
                    items@[i].app_id->0@,
                ) ==> final(self).anchors().contains_key(items@[i].app_id->0@) && final(self).anchors()[items@[i].app_id->0@]
                    == old(self).anchors()[items@[i].app_id->0@],
            forall|name: Seq<char>|
                #[trigger] final(self).anchors().contains_key(name) ==> old(self).anchors().contains_key(name)
                    && final(self).anchors()[name] == old(self).anchors()[name] && exists|i: int|
                    0 <= i < items@.len() && (#[trigger] items@[i]).app_id is Some && items@[i].app_id->0@ == name,
    {
        let mut live: Vec<String> = Vec::new();
        let mut i: usize = 0;
        while i < items.len()
            invariant
                i <= items@.len(),
                forall|name: Seq<char>|
                    names_contain(live@, name) <==> exists|j: int|
                        0 <= j < i && carries(#[trigger] items@[j], name),
            decreases items@.len() - i,
        {
            let ghost before = live@;
            match &items[i].app_id {
                Some(app) => {
                    live.push(app.clone());
                    proof {
                        assert forall|name: Seq<char>| names_contain(live@, name) <==> exists|j: int|
                            0 <= j < i + 1 && carries(#[trigger] items@[j], name) by {
                            if names_contain(live@, name) {
                                let m = choose|m: int| 0 <= m < live@.len() && (#[trigger] live@[m])@ == name;
                                if m < before.len() {
                                    assert(before[m] == live@[m]);
                                    assert(names_contain(before, name));
                                }
                            }
                            if exists|j: int| 0 <= j < i + 1 && carries(#[trigger] items@[j], name) {
                                let j = choose|j: int| 0 <= j < i + 1 && carries(#[trigger] items@[j], name);
                                if j < i {
                                    assert(names_contain(before, name));
                                    let m = choose|m: int| 0 <= m < before.len() && (#[trigger] before[m])@ == name;
                                    assert(live@[m] == before[m]);
                                } else {
                                    assert(live@[before.len() as int]@ == name);
                                }
                            }
                        }
                    }
                },
                None => {},
            }
            i = i + 1;
        }
        self.anchors.retain_live(&live);
        proof {
            assert(Set::new(|name: Seq<char>| names_contain(live@, name)) =~= live_apps(items@));
            assert forall|i: int| 0 <= i < items@.len() && (#[trigger] items@[i]).app_id is Some implies
                live_apps(items@).contains(items@[i].app_id->0@) by {
                law_live_apps_hold_every_app(items@, i);
            }
            assert forall|name: Seq<char>| #[trigger] live_apps(items@).contains(name) implies exists|i: int|
                0 <= i < items@.len() && (#[trigger] items@[i]).app_id is Some && items@[i].app_id->0@ == name by {
                law_live_apps_hold_only_carried_apps(items@, name);
            }
        }
    }

    /// The anchor of the application `app`, if it has one.
    pub fn anchor(&self, app: &String) -> (anchor: Option<&P>)
        ensures
            anchor.is_some() == self.anchors().contains_key(app@),
            anchor matches Some(p) ==> *p == self.anchors()[app@],
    {
        self.anchors.get(app)
    }

    /// Sets the anchor of the application `app`.
    pub fn set_anchor(&mut self, app: String, anchor: P)
        ensures
            final(self).recorded() == old(self).recorded(),
            final(self).anchors() == old(self).anchors().insert(app@, anchor),
    {
        self.anchors.insert(app, anchor);
    }
}

/// Every application id that a window carries is live.
pub proof fn law_live_apps_hold_every_app(items: Seq<ItemKey>, i: int)
    requires
        0 <= i < items.len(),
        items[i].app_id is Some,
    ensures
        live_apps(items).contains(items[i].app_id->0@),
{
    assert(carries(items[i], items[i].app_id->0@));
}

/// Only application ids that some window carries are live.
pub proof fn law_live_apps_hold_only_carried_apps(items: Seq<ItemKey>, name: Seq<char>)
    requires
        live_apps(items).contains(name),
    ensures
        exists|i: int| 0 <= i < items.len() && (#[trigger] items[i]).app_id is Some && items[i].app_id->0@ == name,
{
    let i = choose|i: int| 0 <= i < items.len() && carries(#[trigger] items[i], name);
    assert(items[i].app_id is Some && items[i].app_id->0@ == name);
}

/// A window whose id and order were not arranged, wherever it stands, calls for a new
/// arrangement.
pub proof fn law_unrecorded_window_needs_arrange(recorded: Seq<(u64, u64)>, items: Seq<ItemKey>, i: int)
    requires
        0 <= i < items.len(),
        !recorded.contains((items[i].id, items[i].order)),
    ensures
        differs(recorded, items),
{
    assert(record_of(items[i]) == (items[i].id, items[i].order));
}

/// Windows need no new arrangement only when there are as many as were arranged and each one's
/// id and order were arranged.
pub proof fn law_no_arrange_means_all_recorded(recorded: Seq<(u64, u64)>, items: Seq<ItemKey>, i: int)
    requires
        !differs(recorded, items),
        0 <= i < items.len(),
    ensures
        recorded.len() == items.len(),
        recorded.contains((items[i].id, items[i].order)),
{
    assert(record_of(items[i]) == (items[i].id, items[i].order));
}

impl<P> Default for State<P> {
    fn default() -> (state: Self)
        ensures
            state.recorded() == Seq::<(u64, u64)>::empty(),
            state.anchors() == Map::<Seq<char>, P>::empty(),
    {
        State::new()
    }
}

/// Windows that share a group key end up in the same group.
pub proof fn law_same_key_same_group(items: Seq<ItemKey>, groups: Seq<Seq<usize>>, i: int, j: int)
    requires
        is_grouping(items, groups),
        0 <= i < items.len(),
        0 <= j < items.len(),
        key_of(items[i]) == key_of(items[j]),
    ensures
        exists|g: int, a: int, b: int|
            0 <= g < groups.len() && 0 <= a < groups[g].len() && 0 <= b < groups[g].len()
                && #[trigger] groups[g][a] == i && #[trigger] groups[g][b] == j,
{
    assert(is_grouped(groups, i));
    assert(is_grouped(groups, j));
    let (g1, a) = choose|g: int, k: int| 0 <= g < groups.len() && 0 <= k < groups[g].len() && #[trigger] groups[g][k] == i;
    let (g2, b) = choose|g: int, k: int| 0 <= g < groups.len() && 0 <= k < groups[g].len() && #[trigger] groups[g][k] == j;
    assert(key_of(items[groups[g1][a] as int]) == key_of(items[groups[g1][0] as int]));
    assert(key_of(items[groups[g2][b] as int]) == key_of(items[groups[g2][0] as int]));
    if g1 != g2 {
        assert(key_of(items[groups[g1][0] as int]) != key_of(items[groups[g2][0] as int]));
    }
}

/// Whether windows `i` and `j` share a group key, spelled out: the same application id, or both
/// without one and with the same order.
pub open spec fn same_application(items: Seq<ItemKey>, i: int, j: int) -> bool {
    match (items[i].app_id, items[j].app_id) {
        (Some(a), Some(b)) => a@ == b@,
        (None, None) => items[i].order == items[j].order,
        _ => false,
    }
}

proof fn lemma_key_of_same_application(items: Seq<ItemKey>, i: int, j: int)
    ensures
        (key_of(items[i]) == key_of(items[j])) == same_application(items, i, j),
{
}

/// Every window is in exactly one place of the grouping.
pub proof fn law_grouping_holds_each_window_once(items: Seq<ItemKey>, groups: Seq<Seq<usize>>, i: int)
    requires
        is_grouping(items, groups),
        0 <= i < items.len(),
    ensures
        exists|g: int, k: int| 0 <= g < groups.len() && 0 <= k < groups[g].len() && #[trigger] groups[g][k] == i,
        forall|g1: int, k1: int, g2: int, k2: int|
            0 <= g1 < groups.len() && 0 <= k1 < groups[g1].len() && 0 <= g2 < groups.len() && 0 <= k2
                < groups[g2].len() && #[trigger] groups[g1][k1] == i && #[trigger] groups[g2][k2] == i
                ==> g1 == g2 && k1 == k2,
{
    assert(is_grouped(groups, i));
}

/// Two windows are in the same group exactly when they have the same application id, or both
/// have none and have the same order.
pub proof fn law_group_is_application(items: Seq<ItemKey>, groups: Seq<Seq<usize>>, g1: int, a: int, g2: int, b: int)
    requires
        is_grouping(items, groups),
        0 <= g1 < groups.len(),
        0 <= a < groups[g1].len(),
        0 <= g2 < groups.len(),
        0 <= b < groups[g2].len(),
    ensures
        (g1 == g2) == same_application(items, groups[g1][a] as int, groups[g2][b] as int),
{
    let (i, j) = (groups[g1][a] as int, groups[g2][b] as int);
    lemma_key_of_same_application(items, i, j);
    assert(key_of(items[groups[g1][a] as int]) == key_of(items[groups[g1][0] as int]));
    assert(key_of(items[groups[g2][b] as int]) == key_of(items[groups[g2][0] as int]));
    if g1 != g2 {
        assert(key_of(items[groups[g1][0] as int]) != key_of(items[groups[g2][0] as int]));
    }
}

/// Inside a group, windows come by order, and windows of equal order in input order.
pub proof fn law_group_members_by_order(items: Seq<ItemKey>, groups: Seq<Seq<usize>>, g: int, a: int, b: int)
    requires
        is_grouping(items, groups),
        0 <= g < groups.len(),
        0 <= a < b < groups[g].len(),
    ensures
        items[groups[g][a] as int].order <= items[groups[g][b] as int].order,
        items[groups[g][a] as int].order == items[groups[g][b] as int].order ==> groups[g][a] < groups[g][b],
{
    assert(member_before(items, groups[g][a] as int, groups[g][b] as int));
}

/// Groups come by the order of their first window; among equal orders, groups of applications
/// come before windows without one, and applications by the bytes of their id.
pub proof fn law_groups_by_first_order(items: Seq<ItemKey>, groups: Seq<Seq<usize>>, g1: int, g2: int)
    requires
        is_grouping(items, groups),
        0 <= g1 < g2 < groups.len(),
    ensures
        items[groups[g1][0] as int].order <= items[groups[g2][0] as int].order,
        items[groups[g1][0] as int].order == items[groups[g2][0] as int].order ==> {
            &&& items[groups[g1][0] as int].app_id is Some
            &&& items[groups[g2][0] as int].app_id is None || bytes_lt(
                encode_utf8(items[groups[g1][0] as int].app_id->0@),
                encode_utf8(items[groups[g2][0] as int].app_id->0@),
            )
        },
{
    assert(group_before(items, groups[g1][0] as int, groups[g2][0] as int));
    assert(groups[g1].len() > 0 && groups[g2].len() > 0);
    assert(key_of(items[groups[g1][0] as int]) != key_of(items[groups[g2][0] as int]));
}

/// A proper prefix comes before the longer string.
pub proof fn law_prefix_comes_first(a: Seq<u8>, b: Seq<u8>)
    requires
        a.len() < b.len(),
        b.take(a.len() as int) == a,
    ensures
        bytes_lt(a, b),
        !bytes_lt(b, a),
{
    assert(a.take(a.len() as int) =~= a);
    lemma_bytes_lt_skip(a, b, a.len() as int);
    lemma_bytes_lt_skip(b, a, a.len() as int);
    assert(a.skip(a.len() as int).len() == 0);
}

/// The first differing byte decides the order.
pub proof fn law_first_difference_decides(a: Seq<u8>, b: Seq<u8>, k: int)
    requires
        0 <= k < a.len(),
        k < b.len(),
        a.take(k) == b.take(k),
        a[k] < b[k],
    ensures
        bytes_lt(a, b),
        !bytes_lt(b, a),
{
    lemma_bytes_lt_skip(a, b, k);
    lemma_bytes_lt_skip(b, a, k);
}

/// Right after the windows were recorded, they need no new arrangement.
pub proof fn law_recorded_needs_no_arrange(items: Seq<ItemKey>)
    ensures
        !differs(items.map_values(|item: ItemKey| record_of(item)), items),
{
    let recorded = items.map_values(|item: ItemKey| record_of(item));
    assert forall|i: int| 0 <= i < items.len() implies recorded.contains(#[trigger] record_of(items[i])) by {
        assert(recorded[i] == record_of(items[i]));
    }
}

/// After invalidation, any non-empty set of windows needs a new arrangement, and an empty one
/// does not.
pub proof fn law_invalidated_needs_arrange(items: Seq<ItemKey>)
    ensures
        differs(Seq::<(u64, u64)>::empty(), items) == (items.len() > 0),
{
}

} // verus!
