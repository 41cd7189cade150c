//! Where each application's windows were last anchored, keyed by the application id.
//!
//! The arranging code remembers one anchor position per application so that new windows of
//! the same application open next to the old ones. The position type is left to the caller.
use vstd::prelude::*;

verus! {

/// Whether some name in `live` is `name`.
pub open spec fn names_contain(live: Seq<String>, name: Seq<char>) -> bool {
    exists|j: int| 0 <= j < live.len() && (#[trigger] live[j])@ == name
}

/// A map from application ids to anchor positions.
pub struct AnchorMap<P> {
    entries: Vec<(String, P)>,
}

impl<P> AnchorMap<P> {
    /// No application id occurs twice.
    #[verifier::type_invariant]
    spec fn keys_distinct(self) -> bool {
        forall|i: int, j: int|
            0 <= i < self.entries@.len() && 0 <= j < self.entries@.len() && i != j
                ==> (#[trigger] self.entries@[i]).0@ != (#[trigger] self.entries@[j]).0@
    }

    spec fn has_key(self, name: Seq<char>) -> bool {
        exists|i: int| 0 <= i < self.entries@.len() && (#[trigger] self.entries@[i]).0@ == name
    }

    spec fn key_index(self, name: Seq<char>) -> int {
        choose|i: int| 0 <= i < self.entries@.len() && (#[trigger] self.entries@[i]).0@ == name
    }

    /// The anchors as a map from application ids to positions.
    pub closed spec fn view(self) -> Map<Seq<char>, P> {
        Map::new(|name: Seq<char>| self.has_key(name), |name: Seq<char>| self.entries@[self.key_index(name)].1)
    }

    proof fn lemma_view_at(self, i: int)
        requires
            self.keys_distinct(),
            0 <= i < self.entries@.len(),
        ensures
            self.view().contains_key(self.entries@[i].0@),
            self.view()[self.entries@[i].0@] == self.entries@[i].1,
    {
        let name = self.entries@[i].0@;
        assert(self.has_key(name));
        let k = self.key_index(name);
        assert(self.entries@[k].0@ == name);
        if k != i {
            assert(self.entries@[k].0@ != self.entries@[i].0@);
        }
    }

    /// An empty map.
    pub fn new() -> (map: Self)
        ensures
            map.view() == Map::<Seq<char>, P>::empty(),
    {
        let map = AnchorMap { entries: Vec::new() };
        assert(map.view() =~= Map::<Seq<char>, P>::empty());
        map
    }

    /// The position of the first entry whose key is `name`, if any.
    fn find(&self, name: &String) -> (found: Option<usize>)
        ensures
            match found {
                Some(i) => i < self.entries@.len() && self.entries@[i as int].0@ == name@,
                None => !self.has_key(name@),
            },
    {
        let mut i: usize = 0;
        while i < self.entries.len()
            invariant
                i <= self.entries@.len(),
                forall|j: int| 0 <= j < i ==> (#[trigger] self.entries@[j]).0@ != name@,
            decreases self.entries@.len() - i,
        {
            if self.entries[i].0 == *name {
                return Some(i);
            }
            i = i + 1;
        }
        None
    }

    /// The anchor of the application `name`, if it has one.
    pub fn get(&self, name: &String) -> (anchor: Option<&P>)
        ensures
            anchor.is_some() == self.view().contains_key(name@),
            anchor matches Some(p) ==> *p == self.view()[name@],
    {
        proof {
            use_type_invariant(self);
        }
        match self.find(name) {
            Some(i) => {
                proof {
                    self.lemma_view_at(i as int);
                }
                Some(&self.entries[i].1)
            },
            None => None,
        }
    }

    /// Sets the anchor of the application `name` to `anchor`, replacing any earlier one.
    pub fn insert(&mut self, name: String, anchor: P)
        ensures
            final(self).view() == old(self).view().insert(name@, anchor),
    {
        proof {
            use_type_invariant(&*self);
        }
        let ghost key = name@;
        let ghost old_self = *self;
        let ghost before = self.view();
        let found = self.find(&name);
        let mut entries = Vec::new();
        std::mem::swap(&mut entries, &mut self.entries);
        let ghost old_entries = entries@;
        match found {
            Some(i) => {
                entries.set(i, (name, anchor));
            },
            None => {
                entries.push((name, anchor));
            },
        }
        let ghost new_entries = entries@;
        self.entries = entries;
        proof {
            let after = self.view();
            assert forall|k: Seq<char>| after.contains_key(k) == before.insert(key, anchor).contains_key(k) by {
                if after.contains_key(k) {
                    let j = choose|j: int| 0 <= j < new_entries.len() && (#[trigger] new_entries[j]).0@ == k;
                    if k != key {
                        assert(old_entries[j].0@ == k);
                    }
                }
                if before.contains_key(k) && k != key {
                    let j = choose|j: int| 0 <= j < old_entries.len() && (#[trigger] old_entries[j]).0@ == k;
                    assert(new_entries[j].0@ == k);
                    assert(self.has_key(k));
                }
                if k == key {
                    match found {
                        Some(i) => assert(new_entries[i as int].0@ == k),
                        None => assert(new_entries[old_entries.len() as int].0@ == k),
                    }
                    assert(self.has_key(k));
                }
            }
            assert forall|k: Seq<char>| #[trigger] after.contains_key(k) implies after[k] == before.insert(key, anchor)[k] by {
                let j = choose|j: int| 0 <= j < new_entries.len() && (#[trigger] new_entries[j]).0@ == k;
                self.lemma_view_at(j);
                if k != key {
                    assert(old_entries[j].0@ == k);
                    assert(old_entries[j] == new_entries[j]);
                    old_self.lemma_view_at(j);
                }
            }
            assert(after =~= before.insert(key, anchor));
        }
    }

    /// Sets the anchor of the application `name` to `anchor` unless it already has one.
    pub fn insert_if_absent(&mut self, name: String, anchor: P)
        ensures
            final(self).view() == (if old(self).view().contains_key(name@) {
                old(self).view()
            } else {
                old(self).view().insert(name@, anchor)
            }),
    {
        proof {
            use_type_invariant(&*self);
        }
        if self.find(&name).is_none() {
            self.insert(name, anchor);
        }
    }

    /// Forgets the anchors of all applications whose id is not in `live`.
    pub fn retain_live(&mut self, live: &[String])
        ensures
            final(self).view() == old(self).view().restrict(
                Set::new(|name: Seq<char>| names_contain(live@, name)),
            ),
            forall|j: int|
                0 <= j < live@.len() && old(self).view().contains_key((#[trigger] live@[j])@) ==> final(self).view().contains_key(live@[j]@) && final(self).view()[live@[j]@] == old(self).view()[live@[j]@],
            forall|name: Seq<char>|
                #[trigger] final(self).view().contains_key(name) ==> old(self).view().contains_key(name) && final(self).view()[name] == old(self).view()[name] && exists|j: int| 0 <= j < live@.len() && live@[j]@ == name,
    {
        proof {
            use_type_invariant(&*self);
        }
        let ghost old_self = *self;
        let ghost before = self.view();
        let mut rest = Vec::new();
        std::mem::swap(&mut rest, &mut self.entries);
        let ghost all = rest@;
        let mut kept: Vec<(String, P)> = Vec::new();
        while rest.len() > 0
            invariant
                forall|i: int, j: int|
                    0 <= i < all.len() && 0 <= j < all.len() && i != j
                        ==> (#[trigger] all[i]).0@ != (#[trigger] all[j]).0@,
                rest@ == all.subrange(0, rest@.len() as int),
                rest@.len() <= all.len(),
                forall|i: int| 0 <= i < kept@.len() ==> {
                    &&& exists|j: int| rest@.len() <= j < all.len() && all[j] == #[trigger] kept@[i]
                    &&& names_contain(live@, kept@[i].0@)
                },
                forall|j: int| rest@.len() <= j < all.len() && names_contain(live@, (#[trigger] all[j]).0@)
                    ==> exists|i: int| 0 <= i < kept@.len() && kept@[i] == all[j],
                forall|i: int, k: int|
                    0 <= i < kept@.len() && 0 <= k < kept@.len() && i != k
                        ==> (#[trigger] kept@[i]).0@ != (#[trigger] kept@[k]).0@,
            decreases rest@.len(),
        {
            let entry = rest.pop().unwrap();
            let ghost at = rest@.len() as int;
            let mut is_live = false;
            let mut j: usize = 0;
            while j < live.len()
                invariant
                    j <= live@.len(),
                    is_live == (exists|m: int| 0 <= m < j && (#[trigger] live@[m])@ == entry.0@),
                decreases live@.len() - j,
            {
                if live[j] == entry.0 {
                    is_live = true;
                }
                j = j + 1;
            }
            proof {
                assert(all[at] == entry);
                if is_live {
                    let m = choose|m: int| 0 <= m < live@.len() && (#[trigger] live@[m])@ == entry.0@;
                    assert(names_contain(live@, entry.0@));
                } else {
                    assert(!names_contain(live@, entry.0@));
                }
            }
            if is_live {
                let ghost kept_before = kept@;
                kept.push(entry);
                proof {
                    assert forall|i: int| 0 <= i < kept_before.len() implies (#[trigger] kept@[i]).0@ != entry.0@ by {
                        let j = choose|j: int| at < j < all.len() && all[j] == kept_before[i];
                        assert(all[j] == kept@[i]);
                    }
                    assert(kept@[kept_before.len() as int] == all[at]);
                    assert forall|j: int| at <= j < all.len() && names_contain(live@, (#[trigger] all[j]).0@)
                        implies exists|i: int| 0 <= i < kept@.len() && kept@[i] == all[j] by {
                        if j == at {
                            assert(kept@[kept_before.len() as int] == all[j]);
                        } else {
                            let i = choose|i: int| 0 <= i < kept_before.len() && kept_before[i] == all[j];
                            assert(kept@[i] == all[j]);
                        }
                    }
                }
            }
        }
        let ghost after_entries = kept@;
        self.entries = kept;
        proof {
            let live_set = Set::new(|name: Seq<char>| names_contain(live@, name));
            let after = self.view();
            assert forall|k: Seq<char>| after.contains_key(k) == before.restrict(live_set).contains_key(k) by {
                if after.contains_key(k) {
                    let i = choose|i: int| 0 <= i < after_entries.len() && (#[trigger] after_entries[i]).0@ == k;
                    let j = choose|j: int| 0 <= j < all.len() && all[j] == #[trigger] after_entries[i];
                    assert(all[j].0@ == k);
                    assert(live_set.contains(k));
                }
                if before.restrict(live_set).contains_key(k) {
                    let j = choose|j: int| 0 <= j < all.len() && (#[trigger] all[j]).0@ == k;
                    assert(names_contain(live@, all[j].0@));
                    let i = choose|i: int| 0 <= i < after_entries.len() && after_entries[i] == all[j];
                    assert(after_entries[i].0@ == k);
                    assert(self.has_key(k));
                }
            }
            assert forall|k: Seq<char>| #[trigger] after.contains_key(k) implies after[k] == before[k] by {
                let i = choose|i: int| 0 <= i < after_entries.len() && (#[trigger] after_entries[i]).0@ == k;
                self.lemma_view_at(i);
                let j = choose|j: int| 0 <= j < all.len() && all[j] == #[trigger] after_entries[i];
                old_self.lemma_view_at(j);
            }
            assert(after =~= before.restrict(live_set));
            assert forall|j: int| 0 <= j < live@.len() implies #[trigger] live_set.contains(live@[j]@) by {
                law_names_contain_every_name(live@, j);
            }
        }
    }
}

/// Every name of the list counts as contained, the last one included.
pub proof fn law_names_contain_every_name(live: Seq<String>, j: int)
    requires
        0 <= j < live.len(),
    ensures
        names_contain(live, live[j]@),
{
}

/// Only names of the list count as contained.
pub proof fn law_names_contain_only_listed(live: Seq<String>, name: Seq<char>)
    requires
        names_contain(live, name),
    ensures
        exists|j: int| 0 <= j < live.len() && live[j]@ == name,
{
}

/// Reading an anchor right after setting it gives what was set, and other anchors stay.
pub proof fn law_get_after_insert<P>(anchors: Map<Seq<char>, P>, name: Seq<char>, anchor: P, other: Seq<char>)
    requires
        other != name,
    ensures
        anchors.insert(name, anchor).contains_key(name),
        anchors.insert(name, anchor)[name] == anchor,
        anchors.insert(name, anchor).contains_key(other) == anchors.contains_key(other),
        anchors.contains_key(other) ==> anchors.insert(name, anchor)[other] == anchors[other],
{
}

/// Retaining live applications keeps exactly the anchors of live applications, unchanged.
pub proof fn law_retain_keeps_live<P>(anchors: Map<Seq<char>, P>, live: Seq<String>, name: Seq<char>)
    ensures
        anchors.restrict(Set::new(|n: Seq<char>| names_contain(live, n))).contains_key(name)
            == (anchors.contains_key(name) && names_contain(live, name)),
        anchors.restrict(Set::new(|n: Seq<char>| names_contain(live, n))).contains_key(name)
            ==> anchors.restrict(Set::new(|n: Seq<char>| names_contain(live, n)))[name] == anchors[name],
{
}

} // verus!
