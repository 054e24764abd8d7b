//! The group index: for every group that an entry of the dependency index
//! names, the dependencies that name it.

use crate::dependency::{
    index_entries, index_get, index_names, is_listing_of, texts, Dependency, DependencyIndex,
    DependencyView, IndexEntries,
};
use crate::engine::EngineState;
use crate::error::Error;
pub use crate::ruleset::Group;
use dashmap::DashMap;
use vstd::prelude::*;

verus! {

/// The group index as a mathematical map from group names.
pub type GroupEntries = Map<Seq<char>, Seq<DependencyView>>;

/// The group index: from a group name to the dependencies that name the
/// group.
pub type GroupIndex = DashMap<String, Vec<Dependency>>;

/// What each dependency of `list` stands for.
pub open spec fn views(list: Seq<Dependency>) -> Seq<DependencyView> {
    Seq::new(list.len(), |i: int| list[i]@)
}

/// What `index` holds: for each group name that has an entry, its
/// dependencies.
pub uninterp spec fn group_entries(index: GroupIndex) -> GroupEntries;

/// `DashMap::new`: a map without entries.
#[verifier::external_body]
pub(crate) fn group_new() -> (index: GroupIndex)
    ensures
        group_entries(index) == GroupEntries::empty(),
{
    DashMap::new()
}

/// `DashMap::get`, then a copy of the value behind the guard (`Ref::value`):
/// the dependencies stored under `name`, if there are any.
#[verifier::external_body]
pub(crate) fn group_get(index: &GroupIndex, name: &str) -> (found: Option<Vec<Dependency>>)
    ensures
        found is Some <==> group_entries(*index).contains_key(name@),
        found matches Some(list) ==> views(list@) == group_entries(*index)[name@],
{
    index.get(name).map(|entry| entry.value().clone())
}

/// `DashMap::insert`: `list` is stored under `name`, in place of what was
/// stored there; the other entries stay.
#[verifier::external_body]
pub(crate) fn group_insert(index: &mut GroupIndex, name: String, list: Vec<Dependency>)
    ensures
        group_entries(*final(index)) == group_entries(*old(index)).insert(name@, views(list@)),
{
    index.insert(name, list);
}

/// The dependency `name`, once for each time `listing`, the groups that its
/// entry names, holds `group`.
pub open spec fn copies(
    entries: IndexEntries,
    name: Seq<char>,
    listing: Seq<Seq<char>>,
    group: Seq<char>,
) -> Seq<DependencyView>
    decreases listing.len(),
{
    if listing.len() == 0 {
        Seq::empty()
    } else {
        copies(entries, name, listing.drop_last(), group) + if listing.last() == group {
            seq![(name, entries[name])]
        } else {
            Seq::empty()
        }
    }
}

/// The dependencies that are filed under `group` when the entries of `names`
/// are read in turn: each dependency once for each time its entry names the
/// group.
pub open spec fn filed_under(entries: IndexEntries, names: Seq<Seq<char>>, group: Seq<char>) -> Seq<
    DependencyView,
>
    decreases names.len(),
{
    if names.len() == 0 {
        Seq::empty()
    } else {
        filed_under(entries, names.drop_last(), group) + copies(
            entries,
            names.last(),
            entries[names.last()].1,
            group,
        )
    }
}

/// The group index that comes of reading the entries of `names` in turn: an
/// entry for each group under which something is filed.
pub open spec fn derived_entries(entries: IndexEntries, names: Seq<Seq<char>>) -> GroupEntries {
    Map::new(
        |group: Seq<char>| filed_under(entries, names, group).len() > 0,
        |group: Seq<char>| filed_under(entries, names, group),
    )
}

/// Some entry of the dependency index names `group`.
pub open spec fn is_named(entries: IndexEntries, group: Seq<char>) -> bool {
    exists|name: Seq<char>| #[trigger] entries.contains_key(name) && entries[name].1.contains(group)
}

/// How often `item` occurs in `list`.
pub open spec fn occurrences<A>(list: Seq<A>, item: A) -> nat
    decreases list.len(),
{
    if list.len() == 0 {
        0
    } else {
        occurrences(list.drop_last(), item) + if list.last() == item {
            1nat
        } else {
            0nat
        }
    }
}

/// `filed` is a group index of the dependency index `entries`: a group has an
/// entry exactly when some entry of the dependency index names it, and under
/// the group stand the dependencies that name it and no others, each as often
/// as its entry names the group.
pub open spec fn is_group_index_of(filed: GroupEntries, entries: IndexEntries) -> bool {
    &&& forall|group: Seq<char>| #[trigger] filed.contains_key(group) <==> is_named(entries, group)
    &&& forall|group: Seq<char>, name: Seq<char>|
        filed.contains_key(group) && entries.contains_key(name) ==> #[trigger] occurrences(
            filed[group],
            (name, entries[name]),
        ) == occurrences(entries[name].1, group)
    &&& forall|group: Seq<char>, k: int|
        filed.contains_key(group) && 0 <= k < filed[group].len() ==> entries.contains_key(
            (#[trigger] filed[group][k]).0,
        ) && filed[group][k].1 == entries[filed[group][k].0]
}

/// What is filed under `group` while the dependency index is read: the
/// entries of `names` are done, and of the entry of `name`, whose groups are
/// `listing`, the first that `listing` holds.
spec fn filed(
    entries: IndexEntries,
    names: Seq<Seq<char>>,
    name: Seq<char>,
    listing: Seq<Seq<char>>,
    group: Seq<char>,
) -> Seq<DependencyView> {
    filed_under(entries, names, group) + copies(entries, name, listing, group)
}

spec fn filed_entries(
    entries: IndexEntries,
    names: Seq<Seq<char>>,
    name: Seq<char>,
    listing: Seq<Seq<char>>,
) -> GroupEntries {
    Map::new(
        |group: Seq<char>| filed(entries, names, name, listing, group).len() > 0,
        |group: Seq<char>| filed(entries, names, name, listing, group),
    )
}

proof fn lemma_occurrences_add<A>(first: Seq<A>, second: Seq<A>, item: A)
    ensures
        occurrences(first + second, item) == occurrences(first, item) + occurrences(second, item),
    decreases second.len(),
{
    if second.len() == 0 {
        assert(first + second =~= first);
    } else {
        assert((first + second).drop_last() =~= first + second.drop_last());
        lemma_occurrences_add(first, second.drop_last(), item);
    }
}

/// An item occurs in a list exactly when it occurs there at least once.
pub proof fn lemma_occurs<A>(list: Seq<A>, item: A)
    ensures
        occurrences(list, item) > 0 <==> list.contains(item),
    decreases list.len(),
{
    if list.len() > 0 {
        lemma_occurs(list.drop_last(), item);
        if list.drop_last().contains(item) {
            let k = choose|k: int| 0 <= k < list.drop_last().len() && list.drop_last()[k] == item;
            assert(list[k] == item);
        }
        if list.contains(item) && list.last() != item {
            let k = choose|k: int| 0 <= k < list.len() && list[k] == item;
            assert(list.drop_last()[k] == item);
        }
        if list.last() == item {
            assert(list[list.len() - 1] == item);
        }
    }
}

/// The copies of a dependency are copies of it and of nothing else, as many
/// as its listing holds the group.
proof fn lemma_copies(
    entries: IndexEntries,
    name: Seq<char>,
    listing: Seq<Seq<char>>,
    group: Seq<char>,
    item: DependencyView,
)
    ensures
        copies(entries, name, listing, group).len() == occurrences(listing, group),
        occurrences(copies(entries, name, listing, group), item) == if item == (
            name,
            entries[name],
        ) {
            occurrences(listing, group)
        } else {
            0
        },
        forall|k: int|
            0 <= k < copies(entries, name, listing, group).len() ==> (#[trigger] copies(
                entries,
                name,
                listing,
                group,
            )[k]) == (name, entries[name]),
    decreases listing.len(),
{
    if listing.len() > 0 {
        let before = copies(entries, name, listing.drop_last(), group);
        let all = copies(entries, name, listing, group);
        lemma_copies(entries, name, listing.drop_last(), group, item);
        if listing.last() == group {
            let one = seq![(name, entries[name])];
            lemma_occurrences_add(before, one, item);
            assert(one.drop_last() =~= Seq::<DependencyView>::empty());
            assert(occurrences(Seq::<DependencyView>::empty(), item) == 0);
            assert(one.last() == (name, entries[name]));
        } else {
            assert(before + Seq::empty() =~= before);
        }
        assert forall|k: int| 0 <= k < all.len() implies (#[trigger] all[k]) == (
            name,
            entries[name],
        ) by {
            if k < before.len() {
                assert(all[k] == before[k]);
            }
        }
    }
}

/// What is filed under a group are dependencies of `names`, each as often as
/// its entry names the group.
proof fn lemma_filed_under(
    entries: IndexEntries,
    names: Seq<Seq<char>>,
    group: Seq<char>,
    name: Seq<char>,
)
    requires
        names.no_duplicates(),
    ensures
        occurrences(filed_under(entries, names, group), (name, entries[name])) == if names.contains(
            name,
        ) {
            occurrences(entries[name].1, group)
        } else {
            0
        },
        forall|k: int|
            0 <= k < filed_under(entries, names, group).len() ==> names.contains(
                (#[trigger] filed_under(entries, names, group)[k]).0,
            ) && filed_under(entries, names, group)[k].1 == entries[filed_under(
                entries,
                names,
                group,
            )[k].0],
        filed_under(entries, names, group).len() > 0 <==> exists|i: int|
            0 <= i < names.len() && entries[#[trigger] names[i]].1.contains(group),
    decreases names.len(),
{
    if names.len() > 0 {
        let earlier = names.drop_last();
        let last = names.last();
        let before = filed_under(entries, earlier, group);
        let more = copies(entries, last, entries[last].1, group);
        let all = filed_under(entries, names, group);
        let item = (name, entries[name]);
        assert(earlier.no_duplicates());
        lemma_filed_under(entries, earlier, group, name);
        lemma_copies(entries, last, entries[last].1, group, item);
        lemma_occurrences_add(before, more, item);
        lemma_occurs(entries[last].1, group);
        assert(names[names.len() - 1] == last);
        if earlier.contains(name) {
            let i = choose|i: int| 0 <= i < earlier.len() && earlier[i] == name;
            assert(names[i] == name);
            assert(name != last);
        }
        if names.contains(name) && name != last {
            let i = choose|i: int| 0 <= i < names.len() && names[i] == name;
            assert(earlier[i] == name);
        }
        assert forall|k: int| 0 <= k < all.len() implies names.contains((#[trigger] all[k]).0)
            && all[k].1 == entries[all[k].0] by {
            if k < before.len() {
                assert(all[k] == before[k]);
                let i = choose|i: int| 0 <= i < earlier.len() && earlier[i] == before[k].0;
                assert(names[i] == before[k].0);
            } else {
                assert(all[k] == more[k - before.len()]);
            }
        }
        if exists|i: int| 0 <= i < earlier.len() && entries[#[trigger] earlier[i]].1.contains(group) {
            let i = choose|i: int|
                0 <= i < earlier.len() && entries[#[trigger] earlier[i]].1.contains(group);
            assert(names[i] == earlier[i]);
        }
        if exists|i: int| 0 <= i < names.len() && entries[#[trigger] names[i]].1.contains(group) {
            let i = choose|i: int|
                0 <= i < names.len() && entries[#[trigger] names[i]].1.contains(group);
            if i < earlier.len() {
                assert(earlier[i] == names[i]);
            }
        }
    }
}

/// The group index that comes of reading every entry of the dependency index
/// once is a group index of it, in whichever order the entries are read.
pub proof fn lemma_derived_is_group_index(entries: IndexEntries, names: Seq<Seq<char>>)
    requires
        is_listing_of(names, entries),
    ensures
        is_group_index_of(derived_entries(entries, names), entries),
{
    let filed = derived_entries(entries, names);
    assert forall|group: Seq<char>| #[trigger] filed.contains_key(group) <==> is_named(
        entries,
        group,
    ) by {
        lemma_filed_under(entries, names, group, group);
        if is_named(entries, group) {
            let name = choose|name: Seq<char>| #[trigger]
                entries.contains_key(name) && entries[name].1.contains(group);
            let i = choose|i: int| 0 <= i < names.len() && names[i] == name;
            assert(entries[names[i]].1.contains(group));
        }
        if filed.contains_key(group) {
            let i = choose|i: int|
                0 <= i < names.len() && entries[#[trigger] names[i]].1.contains(group);
            assert(entries.contains_key(names[i]));
        }
    }
    assert forall|group: Seq<char>, name: Seq<char>|
        filed.contains_key(group) && entries.contains_key(name) implies #[trigger] occurrences(
        filed[group],
        (name, entries[name]),
    ) == occurrences(entries[name].1, group) by {
        lemma_filed_under(entries, names, group, name);
    }
    assert forall|group: Seq<char>, k: int|
        filed.contains_key(group) && 0 <= k < filed[group].len() implies entries.contains_key(
        (#[trigger] filed[group][k]).0,
    ) && filed[group][k].1 == entries[filed[group][k].0] by {
        lemma_filed_under(entries, names, group, group);
        let name = filed_under(entries, names, group)[k].0;
        let i = choose|i: int| 0 <= i < names.len() && names[i] == name;
    }
}

/// In a group index, a dependency stands under a group exactly when its entry
/// names the group.
pub proof fn lemma_filed_is_named(
    filed: GroupEntries,
    entries: IndexEntries,
    group: Seq<char>,
    name: Seq<char>,
)
    requires
        is_group_index_of(filed, entries),
        filed.contains_key(group),
        entries.contains_key(name),
    ensures
        filed[group].contains((name, entries[name])) <==> entries[name].1.contains(group),
        filed[group].len() > 0,
{
    lemma_occurs(filed[group], (name, entries[name]));
    lemma_occurs(entries[name].1, group);
    assert(occurrences(filed[group], (name, entries[name])) == occurrences(
        entries[name].1,
        group,
    ));
    assert(is_named(entries, group));
    let other = choose|other: Seq<char>| #[trigger]
        entries.contains_key(other) && entries[other].1.contains(group);
    lemma_occurs(filed[group], (other, entries[other]));
    lemma_occurs(entries[other].1, group);
    assert(occurrences(filed[group], (other, entries[other])) == occurrences(
        entries[other].1,
        group,
    ));
}

/// Builds the group index of the engine's dependency index.
///
/// Each dependency of the dependency index is filed under every group that
/// its entry names, once for each time the entry names the group. The order
/// in which the dependencies stand under a group is that in which the
/// dependency index hands out its names.
pub fn eval_dependencies(engine_state: &EngineState) -> (built: Result<GroupIndex, Error>)
    ensures
        built matches Ok(index) && is_group_index_of(
            group_entries(index),
            index_entries(engine_state.dependency_index),
        ),
        built matches Ok(index) && exists|names: Seq<Seq<char>>| #[trigger]
            is_listing_of(names, index_entries(engine_state.dependency_index)) && group_entries(
                index,
            ) == derived_entries(index_entries(engine_state.dependency_index), names),
{
    let index = build_group_index(&engine_state.dependency_index);
    Ok(index)
}

/// The group index of the dependency index `dependencies`.
pub fn build_group_index(dependencies: &DependencyIndex) -> (index: GroupIndex)
    ensures
        is_group_index_of(group_entries(index), index_entries(*dependencies)),
        exists|names: Seq<Seq<char>>| #[trigger]
            is_listing_of(names, index_entries(*dependencies)) && group_entries(index)
                == derived_entries(index_entries(*dependencies), names),
{
    let ghost entries = index_entries(*dependencies);
    let names = index_names(dependencies);
    let ghost read = texts(names@);
    let mut index = group_new();
    let mut n: usize = 0;
    assert(group_entries(index) =~= filed_entries(
        entries,
        read.take(0),
        Seq::empty(),
        Seq::empty(),
    ));
    while n < names.len()
        invariant
            n <= names@.len(),
            entries == index_entries(*dependencies),
            read == texts(names@),
            is_listing_of(read, entries),
            group_entries(index) == filed_entries(
                entries,
                read.take(n as int),
                Seq::empty(),
                Seq::empty(),
            ),
        decreases names@.len() - n,
    {
        let name = &names[n];
        let ghost done = read.take(n as int);
        assert(read[n as int] == name@);
        assert(entries.contains_key(name@));
        let groups = match index_get(dependencies, name.as_str()) {
            Some(property) => property.groups,
            None => Vec::new(),
        };
        let ghost listing = texts(groups@);
        assert(listing == entries[name@].1);
        let mut g: usize = 0;
        assert(group_entries(index) =~= filed_entries(entries, done, name@, listing.take(0)));
        while g < groups.len()
            invariant
                g <= groups@.len(),
                entries == index_entries(*dependencies),
                entries.contains_key(name@),
                listing == texts(groups@),
                group_entries(index) == filed_entries(entries, done, name@, listing.take(g as int)),
            decreases groups@.len() - g,
        {
            let group = &groups[g];
            let ghost told = listing.take(g as int);
            let ghost more = listing.take(g + 1);
            proof {
                assert(more.drop_last() =~= told);
                assert(more.last() == group@);
            }
            match index_get(dependencies, name.as_str()) {
                Some(property) => {
                    let dependency = Dependency::new(name.as_str(), property);
                    let ghost before = filed(entries, done, name@, told, group@);
                    let mut list = match group_get(&index, group.as_str()) {
                        Some(list) => list,
                        None => Vec::new(),
                    };
                    assert(views(list@) =~= before);
                    list.push(dependency);
                    assert(views(list@) =~= before.push(dependency@));
                    group_insert(&mut index, group.clone(), list);
                    proof {
                        assert(filed(entries, done, name@, more, group@) =~= before.push(
                            dependency@,
                        ));
                        assert forall|other: Seq<char>| other != group@ implies filed(
                            entries,
                            done,
                            name@,
                            more,
                            other,
                        ) == filed(entries, done, name@, told, other) by {
                            assert(filed(entries, done, name@, more, other) =~= filed(
                                entries,
                                done,
                                name@,
                                told,
                                other,
                            ));
                        }
                        assert(group_entries(index) =~= filed_entries(entries, done, name@, more));
                    }
                },
                None => {},
            }
            g += 1;
        }
        proof {
            let next = read.take(n + 1);
            assert(next.drop_last() =~= done);
            assert(next.last() == name@);
            assert(listing.take(groups@.len() as int) =~= listing);
            assert forall|group: Seq<char>|
                filed(entries, next, Seq::empty(), Seq::empty(), group) == filed(
                    entries,
                    done,
                    name@,
                    listing,
                    group,
                ) by {
                assert(filed(entries, next, Seq::empty(), Seq::empty(), group) =~= filed(
                    entries,
                    done,
                    name@,
                    listing,
                    group,
                ));
            }
            assert(group_entries(index) =~= filed_entries(
                entries,
                next,
                Seq::empty(),
                Seq::empty(),
            ));
        }
        n += 1;
    }
    proof {
        assert(read.take(names@.len() as int) =~= read);
        assert forall|group: Seq<char>|
            filed(entries, read, Seq::empty(), Seq::empty(), group) == filed_under(
                entries,
                read,
                group,
            ) by {
            assert(filed(entries, read, Seq::empty(), Seq::empty(), group) =~= filed_under(
                entries,
                read,
                group,
            ));
        }
        assert(group_entries(index) =~= derived_entries(entries, read));
        lemma_derived_is_group_index(entries, read);
        assert(is_listing_of(read, entries) && group_entries(index) == derived_entries(
            entries,
            read,
        ));
    }
    index
}

} // verus!
