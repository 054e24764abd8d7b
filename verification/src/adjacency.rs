//! The reverse adjacency map that one investigation of a conflict builds.

use crate::package::Package;
use vstd::prelude::*;

verus! {

/// Some package of `list` has the identity `id`.
pub open spec fn lists_id(list: Seq<Package>, id: usize) -> bool {
    exists|k: int| 0 <= k < list.len() && (#[trigger] list[k]).id == id
}

/// No identity occurs twice in `list`.
pub open spec fn has_distinct_ids(list: Seq<Package>) -> bool {
    forall|i: int, j: int|
        0 <= i < j < list.len() ==> (#[trigger] list[i]).id != (#[trigger] list[j]).id
}

/// `list`, with `dependent` appended unless its identity is already listed.
pub open spec fn with_dependent(list: Seq<Package>, dependent: Package) -> Seq<Package> {
    if lists_id(list, dependent.id) {
        list
    } else {
        list.push(dependent)
    }
}

/// `list`, with the packages of `more` appended in turn, each unless its
/// identity is already listed.
pub open spec fn with_dependents(list: Seq<Package>, more: Seq<Package>) -> Seq<Package>
    decreases more.len(),
{
    if more.len() == 0 {
        list
    } else {
        with_dependent(with_dependents(list, more.drop_last()), more.last())
    }
}

/// Appending in two steps is appending at once.
pub proof fn lemma_with_dependents_add(list: Seq<Package>, first: Seq<Package>, second: Seq<Package>)
    ensures
        with_dependents(list, first + second) == with_dependents(
            with_dependents(list, first),
            second,
        ),
    decreases second.len(),
{
    if second.len() == 0 {
        assert(first + second =~= first);
    } else {
        assert((first + second).drop_last() =~= first + second.drop_last());
        lemma_with_dependents_add(list, first, second.drop_last());
    }
}

/// After appending, an identity is listed exactly when it was listed before
/// or is the identity of an appended package.
pub proof fn lemma_with_dependents_lists(list: Seq<Package>, more: Seq<Package>, id: usize)
    ensures
        lists_id(with_dependents(list, more), id) <==> lists_id(list, id) || lists_id(more, id),
    decreases more.len(),
{
    if more.len() > 0 {
        let before = with_dependents(list, more.drop_last());
        let after = with_dependents(list, more);
        lemma_with_dependents_lists(list, more.drop_last(), id);
        if lists_id(more.drop_last(), id) {
            let k = choose|k: int|
                0 <= k < more.drop_last().len() && (#[trigger] more.drop_last()[k]).id == id;
            assert(more[k].id == id);
        }
        if lists_id(more, id) && more.last().id != id {
            let k = choose|k: int| 0 <= k < more.len() && (#[trigger] more[k]).id == id;
            assert(more.drop_last()[k].id == id);
        }
        if more.last().id == id {
            assert(more[more.len() - 1].id == id);
        }
        if lists_id(before, id) {
            let k = choose|k: int| 0 <= k < before.len() && (#[trigger] before[k]).id == id;
            assert(after[k].id == id);
        }
        if lists_id(after, id) && !lists_id(before, id) {
            let k = choose|k: int| 0 <= k < after.len() && (#[trigger] after[k]).id == id;
            if k < before.len() {
                assert(before[k].id == id);
            }
        }
        if !lists_id(before, more.last().id) {
            assert(after[before.len() as int] == more.last());
        }
    }
}

/// Appending packages whose identities are all listed changes nothing.
pub proof fn lemma_with_dependents_of_listed(list: Seq<Package>, more: Seq<Package>)
    requires
        forall|k: int| 0 <= k < more.len() ==> lists_id(list, (#[trigger] more[k]).id),
    ensures
        with_dependents(list, more) == list,
    decreases more.len(),
{
    if more.len() > 0 {
        assert forall|k: int| 0 <= k < more.drop_last().len() implies lists_id(
            list,
            (#[trigger] more.drop_last()[k]).id,
        ) by {
            assert(more.drop_last()[k] == more[k]);
        }
        lemma_with_dependents_of_listed(list, more.drop_last());
        assert(lists_id(list, more[more.len() - 1].id));
    }
}

/// Appending the same packages a second time changes nothing.
pub proof fn lemma_with_dependents_again(list: Seq<Package>, more: Seq<Package>)
    ensures
        with_dependents(with_dependents(list, more), more) == with_dependents(list, more),
{
    let once = with_dependents(list, more);
    assert forall|k: int| 0 <= k < more.len() implies lists_id(once, (#[trigger] more[k]).id) by {
        lemma_with_dependents_lists(list, more, more[k].id);
    }
    lemma_with_dependents_of_listed(once, more);
}

struct AdjacencyEntry {
    package: Package,
    dependents: Vec<Package>,
}

/// For each package that was reached, the packages that depend on it
/// directly.
pub struct AdjacencyMap {
    entries: Vec<AdjacencyEntry>,
}

impl View for AdjacencyMap {
    type V = Map<usize, Seq<Package>>;

    /// The dependents recorded for each identity, in the order they were
    /// recorded.
    closed spec fn view(&self) -> Map<usize, Seq<Package>> {
        Map::new(
            |id: usize| self.position(id) is Some,
            |id: usize| self.entries@[self.position(id)->0].dependents@,
        )
    }
}

impl AdjacencyMap {
    /// `i` is the first entry that is keyed by `id`.
    spec fn is_first(&self, i: int, id: usize) -> bool {
        &&& 0 <= i < self.entries@.len()
        &&& self.entries@[i].package.id == id
        &&& forall|j: int| 0 <= j < i ==> (#[trigger] self.entries@[j]).package.id != id
    }

    spec fn position(&self, id: usize) -> Option<int> {
        if exists|i: int| self.is_first(i, id) {
            Some(choose|i: int| self.is_first(i, id))
        } else {
            None
        }
    }

    proof fn first_is_position(&self, i: int, id: usize)
        requires
            self.is_first(i, id),
        ensures
            self.position(id) == Some(i),
    {
        let chosen = choose|i: int| self.is_first(i, id);
        assert(chosen == i) by {
            if chosen < i {
                assert(self.entries@[chosen].package.id != id);
            }
            if i < chosen {
                assert(self.entries@[i].package.id != id);
            }
        }
    }

    /// The dependents recorded for `id`; none for an identity that was not
    /// reached.
    pub open spec fn dependents_of(&self, id: usize) -> Seq<Package> {
        if self@.contains_key(id) {
            self@[id]
        } else {
            Seq::empty()
        }
    }

    /// `dependent` is recorded as depending directly on `id`.
    pub open spec fn has_edge(&self, id: usize, dependent: Package) -> bool {
        self.dependents_of(id).contains(dependent)
    }

    /// Some package with the identity `dependent` is recorded as depending
    /// directly on `id`.
    pub open spec fn has_dependent(&self, id: usize, dependent: usize) -> bool {
        lists_id(self.dependents_of(id), dependent)
    }

    /// The dependents of each package are a set: every package that is
    /// recorded has a dependent, and no identity occurs twice among the
    /// dependents of one package. A new map is so, and `insert` keeps a map
    /// so.
    pub open spec fn wf(&self) -> bool {
        forall|id: usize| #[trigger]
            self@.contains_key(id) ==> self@[id].len() > 0 && has_distinct_ids(self@[id])
    }

    /// An empty map.
    pub fn new() -> (map: AdjacencyMap)
        ensures
            map@ == Map::<usize, Seq<Package>>::empty(),
            map.wf(),
    {
        let map = AdjacencyMap { entries: Vec::new() };
        assert(map@ =~= Map::<usize, Seq<Package>>::empty());
        map
    }

    fn find(&self, id: usize) -> (found: Option<usize>)
        ensures
            found is Some <==> self@.contains_key(id),
            found matches Some(i) ==> self.is_first(i as int, id) && self.entries@[i as int].dependents@
                == self@[id],
    {
        let mut i: usize = 0;
        while i < self.entries.len()
            invariant
                i <= self.entries@.len(),
                forall|k: int| 0 <= k < i ==> (#[trigger] self.entries@[k]).package.id != id,
            decreases self.entries@.len() - i,
        {
            if self.entries[i].package.id == id {
                proof {
                    self.first_is_position(i as int, id);
                }
                return Some(i);
            }
            i += 1;
        }
        assert(forall|k: int| !self.is_first(k, id));
        None
    }

    /// Whether any dependent is recorded for `id`.
    pub fn contains_key(&self, id: usize) -> (present: bool)
        ensures
            present == self@.contains_key(id),
    {
        self.find(id).is_some()
    }

    /// The dependents recorded for `id`, in the order they were recorded.
    pub fn get(&self, id: usize) -> (dependents: Option<&Vec<Package>>)
        ensures
            dependents is Some <==> self@.contains_key(id),
            dependents matches Some(list) ==> list@ == self@[id],
    {
        match self.find(id) {
            Some(i) => Some(&self.entries[i].dependents),
            None => None,
        }
    }

    /// Records that `dependent` depends directly on `package`. A dependent
    /// whose identity is already recorded for `package` is not recorded again.
    pub fn insert(&mut self, package: Package, dependent: Package)
        ensures
            final(self)@ == old(self)@.insert(
                package.id,
                with_dependent(old(self).dependents_of(package.id), dependent),
            ),
            forall|id: usize, other: Package| #[trigger]
                final(self).has_edge(id, other) <==> old(self).has_edge(id, other) || (id
                    == package.id && other == dependent && !old(self).has_dependent(
                    id,
                    dependent.id,
                )),
            forall|id: usize, other: usize| #[trigger]
                final(self).has_dependent(id, other) <==> old(self).has_dependent(id, other) || (
                id == package.id && other == dependent.id),
            forall|id: usize| #[trigger]
                final(self).dependents_of(id) == if id == package.id {
                    with_dependent(old(self).dependents_of(id), dependent)
                } else {
                    old(self).dependents_of(id)
                },
            old(self).wf() ==> final(self).wf(),
    {
        let ghost target = old(self)@.insert(
            package.id,
            with_dependent(old(self).dependents_of(package.id), dependent),
        );
        match self.find(package.id) {
            Some(i) => {
                let mut k: usize = 0;
                let mut listed = false;
                while k < self.entries[i].dependents.len()
                    invariant
                        i < self.entries@.len(),
                        k <= self.entries@[i as int].dependents@.len(),
                        listed <==> exists|j: int|
                            0 <= j < k && (#[trigger] self.entries@[i as int].dependents@[j]).id
                                == dependent.id,
                    decreases self.entries@[i as int].dependents@.len() - k,
                {
                    if self.entries[i].dependents[k].id == dependent.id {
                        listed = true;
                    }
                    k += 1;
                }
                if !listed {
                    let AdjacencyEntry { package: key, dependents: mut list } = self.entries.remove(
                        i,
                    );
                    list.push(dependent);
                    self.entries.insert(i, AdjacencyEntry { package: key, dependents: list });
                }
                proof {
                    self.same_keys_same_positions(*old(self));
                    assert(self@ =~= target);
                }
            },
            None => {
                let mut list: Vec<Package> = Vec::new();
                list.push(dependent);
                self.entries.push(AdjacencyEntry { package, dependents: list });
                proof {
                    assert forall|id: usize| self.position(id) == (if id == package.id {
                        Some(old(self).entries@.len() as int)
                    } else {
                        old(self).position(id)
                    }) by {
                        if id == package.id {
                            assert(forall|j: int| !old(self).is_first(j, id));
                            assert forall|j: int|
                                0 <= j < old(self).entries@.len() implies (
                            #[trigger] self.entries@[j]).package.id != id by {
                                if old(self).entries@[j].package.id == id {
                                    let first = old(self).first_index(j, id);
                                }
                            }
                            self.first_is_position(old(self).entries@.len() as int, id);
                        } else if old(self).position(id) is Some {
                            let at = old(self).position(id)->0;
                            assert(old(self).is_first(at, id));
                            assert(self.is_first(at, id));
                            self.first_is_position(at, id);
                        } else {
                            assert forall|j: int| !self.is_first(j, id) by {
                                if self.is_first(j, id) {
                                    assert forall|k: int| 0 <= k < j implies (
                                    #[trigger] old(self).entries@[k]).package.id != id by {
                                        assert(self.entries@[k].package.id != id);
                                    }
                                    assert(old(self).is_first(j, id));
                                }
                            }
                        }
                    }
                    assert(self@ =~= target);
                }
            },
        }
        proof {
            let list = old(self).dependents_of(package.id);
            if old(self).wf() {
                assert forall|id: usize| #[trigger] self@.contains_key(id) implies self@[id].len()
                    > 0 && has_distinct_ids(self@[id]) by {
                    if id == package.id {
                        let after = with_dependent(list, dependent);
                        assert(self@[id] == after);
                        if !lists_id(list, dependent.id) {
                            assert(after == list.push(dependent));
                            assert(has_distinct_ids(list)) by {
                                if old(self)@.contains_key(id) {
                                    assert(has_distinct_ids(old(self)@[id]));
                                }
                            }
                            assert forall|i: int, j: int| 0 <= i < j < after.len() implies (
                            #[trigger] after[i]).id != (#[trigger] after[j]).id by {
                                if j < list.len() {
                                    assert(list[i].id != list[j].id);
                                } else {
                                    assert(list[i] == after[i]);
                                }
                            }
                        } else {
                            let k = choose|k: int|
                                0 <= k < list.len() && (#[trigger] list[k]).id == dependent.id;
                            assert(old(self)@.contains_key(id));
                        }
                    } else {
                        assert(old(self)@.contains_key(id));
                    }
                }
            }
            assert forall|id: usize, other: Package| #[trigger]
                self.has_edge(id, other) <==> old(self).has_edge(id, other) || (id == package.id
                    && other == dependent && !old(self).has_dependent(id, dependent.id)) by {
                if id == package.id && !lists_id(list, dependent.id) {
                    assert(self.dependents_of(id) == list.push(dependent));
                    assert(list.push(dependent)[list.len() as int] == dependent);
                    if list.contains(other) {
                        let k = choose|k: int| 0 <= k < list.len() && list[k] == other;
                        assert(list.push(dependent)[k] == other);
                    }
                }
            }
            assert forall|id: usize, other: usize| #[trigger]
                self.has_dependent(id, other) <==> old(self).has_dependent(id, other) || (id
                    == package.id && other == dependent.id) by {
                if id == package.id && !lists_id(list, dependent.id) {
                    assert(self.dependents_of(id) == list.push(dependent));
                    assert(list.push(dependent)[list.len() as int] == dependent);
                    if lists_id(list, other) {
                        let k = choose|k: int| 0 <= k < list.len() && (#[trigger] list[k]).id == other;
                        assert(list.push(dependent)[k].id == other);
                    }
                }
            }
        }
    }

    /// Dependents are recorded for finitely many packages.
    pub proof fn lemma_finite(&self)
        ensures
            self@.dom().finite(),
    {
        broadcast use vstd::seq_lib::seq_to_set_is_finite;

        let keys = self.entries@.map_values(|entry: AdjacencyEntry| entry.package.id);
        assert forall|id: usize| self@.dom().contains(id) implies keys.to_set().contains(id) by {
            let at = self.position(id)->0;
            assert(self.is_first(at, id));
            assert(keys[at] == id);
        }
        assert(self@.dom().subset_of(keys.to_set()));
        vstd::set_lib::lemma_len_subset(self@.dom(), keys.to_set());
    }

    /// Some entry before or at `j` is the first one keyed by `id`.
    proof fn first_index(&self, j: int, id: usize) -> (first: int)
        requires
            0 <= j < self.entries@.len(),
            self.entries@[j].package.id == id,
        ensures
            self.is_first(first, id),
            first <= j,
        decreases j,
    {
        if exists|k: int| 0 <= k < j && (#[trigger] self.entries@[k]).package.id == id {
            let k = choose|k: int| 0 <= k < j && (#[trigger] self.entries@[k]).package.id == id;
            self.first_index(k, id)
        } else {
            j
        }
    }

    /// Two maps whose entries have the same keys find every key at the same
    /// place.
    proof fn same_keys_same_positions(&self, other: AdjacencyMap)
        requires
            self.entries@.len() == other.entries@.len(),
            forall|j: int|
                0 <= j < self.entries@.len() ==> (#[trigger] self.entries@[j]).package.id
                    == other.entries@[j].package.id,
        ensures
            forall|id: usize| self.position(id) == other.position(id),
    {
        assert forall|id: usize| self.position(id) == other.position(id) by {
            if other.position(id) is Some {
                let at = other.position(id)->0;
                assert(other.is_first(at, id));
                assert(self.is_first(at, id));
                self.first_is_position(at, id);
            } else {
                assert forall|j: int| !self.is_first(j, id) by {
                    if self.is_first(j, id) {
                        assert forall|k: int| 0 <= k < j implies (
                        #[trigger] other.entries@[k]).package.id != id by {
                            assert(self.entries@[k].package.id != id);
                        }
                        assert(other.is_first(j, id));
                    }
                }
            }
        }
    }
}

} // verus!
