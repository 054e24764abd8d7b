//! The dependency index: for every package name that a group lists and the
//! graph holds, the packages it resolves to and the groups that list it.

use crate::engine::EngineState;
use crate::error::Error;
use crate::graph::GraphNode;
pub use crate::package::Package;
use crate::ruleset::Group;
use dashmap::DashMap;
use vstd::prelude::*;

verus! {

/// `dashmap::DashMap`: a hash map that can be shared between threads. Nothing
/// of its inside is visible to the proofs.
#[verifier::external_type_specification]
#[verifier::external_body]
#[verifier::reject_recursive_types(K)]
#[verifier::reject_recursive_types(V)]
#[verifier::reject_recursive_types(S)]
pub struct ExDashMap<K, V, S>(DashMap<K, V, S>);

/// What the index knows of one package name: the packages of the graph that
/// bear the name, and the groups that list it. A group that lists the name
/// twice is named twice.
pub type PropertyView = (Seq<usize>, Seq<Seq<char>>);

/// A package name with what the index knows of it.
pub type DependencyView = (Seq<char>, PropertyView);

/// The index as a mathematical map from package names.
pub type IndexEntries = Map<Seq<char>, PropertyView>;

/// The dependency index: from a package name to what is known of it.
pub type DependencyIndex = DashMap<String, DependencyProperty>;

/// What the index knows of one package name.
#[derive(Debug, Clone)]
pub struct DependencyProperty {
    /// The packages of the graph that bear the name, one for each resolved
    /// version.
    pub package_ids: Vec<usize>,
    /// The names of the groups that list the name.
    pub groups: Vec<String>,
}

/// A package name with what the index knows of it.
#[derive(Debug, Clone)]
pub struct Dependency {
    pub name: String,
    pub properties: DependencyProperty,
}

/// The character sequences that `names` hold.
pub open spec fn texts(names: Seq<String>) -> Seq<Seq<char>> {
    Seq::new(names.len(), |i: int| names[i]@)
}

impl View for DependencyProperty {
    type V = PropertyView;

    open spec fn view(&self) -> PropertyView {
        (self.package_ids@, texts(self.groups@))
    }
}

impl View for Dependency {
    type V = DependencyView;

    open spec fn view(&self) -> DependencyView {
        (self.name@, self.properties@)
    }
}

impl Dependency {
    pub fn new(name: &str, properties: DependencyProperty) -> (dependency: Dependency)
        ensures
            dependency@ == (name@, properties@),
    {
        Dependency { name: name.to_owned(), properties }
    }
}

impl DependencyProperty {
    /// The property of a name that `group` lists and that is not yet known to
    /// resolve to any package.
    pub fn new(group: &str) -> (property: DependencyProperty)
        ensures
            property@ == (Seq::<usize>::empty(), seq![group@]),
    {
        let mut groups: Vec<String> = Vec::new();
        groups.push(group.to_owned());
        let property = DependencyProperty { package_ids: Vec::new(), groups };
        assert(property@.1 =~= seq![group@]);
        property
    }

    /// Notes that `group` lists the name as well.
    pub fn insert_group(&mut self, group: &str)
        ensures
            final(self)@ == (old(self)@.0, old(self)@.1.push(group@)),
    {
        self.groups.push(group.to_owned());
        assert(self@.1 =~= old(self)@.1.push(group@));
    }

    /// Notes that package `id` of the graph bears the name.
    pub fn insert_package(&mut self, id: usize)
        ensures
            final(self)@ == (old(self)@.0.push(id), old(self)@.1),
    {
        self.package_ids.push(id);
        assert(self@.1 =~= old(self)@.1);
    }

    /// Whether the name resolves to a package of the graph.
    pub fn is_resolved(&self) -> (resolved: bool)
        ensures
            resolved == (self@.0.len() > 0),
    {
        self.package_ids.len() > 0
    }
}

/// What `index` holds: for each name that has an entry, its property.
pub uninterp spec fn index_entries(index: DependencyIndex) -> IndexEntries;

/// `DashMap::new`: a map without entries.
#[verifier::external_body]
pub(crate) fn index_new() -> (index: DependencyIndex)
    ensures
        index_entries(index) == IndexEntries::empty(),
{
    DashMap::new()
}

/// `DashMap::get`, then a copy of the value behind the guard (`Ref::value`):
/// the property stored under `name`, if there is one.
#[verifier::external_body]
pub(crate) fn index_get(index: &DependencyIndex, name: &str) -> (found: Option<DependencyProperty>)
    ensures
        found is Some <==> index_entries(*index).contains_key(name@),
        found matches Some(property) ==> property@ == index_entries(*index)[name@],
{
    index.get(name).map(|entry| entry.value().clone())
}

/// `DashMap::insert`: `property` is stored under `name`, in place of what was
/// stored there; the other entries stay.
#[verifier::external_body]
pub(crate) fn index_insert(index: &mut DependencyIndex, name: String, property: DependencyProperty)
    ensures
        index_entries(*final(index)) == index_entries(*old(index)).insert(name@, property@),
{
    index.insert(name, property);
}

/// `DashMap::retain` with `DependencyProperty::is_resolved`: the entries
/// whose name resolves to a package stay as they are, the others leave.
#[verifier::external_body]
pub(crate) fn index_retain_resolved(index: &mut DependencyIndex)
    ensures
        forall|name: Seq<char>| #[trigger]
            index_entries(*final(index)).contains_key(name) <==> index_entries(
                *old(index),
            ).contains_key(name) && index_entries(*old(index))[name].0.len() > 0,
        forall|name: Seq<char>| #[trigger]
            index_entries(*final(index)).contains_key(name) ==> index_entries(*final(index))[name]
                == index_entries(*old(index))[name],
{
    index.retain(|_, property| property.is_resolved());
}

/// `names` lists the names of `entries`, each once, in some order.
pub open spec fn is_listing_of(names: Seq<Seq<char>>, entries: IndexEntries) -> bool {
    &&& names.no_duplicates()
    &&& forall|i: int| 0 <= i < names.len() ==> entries.contains_key(#[trigger] names[i])
    &&& forall|name: Seq<char>| #[trigger] entries.contains_key(name) ==> names.contains(name)
}

/// `DashMap::iter`, with a copy of the key of each entry (`RefMulti::key`):
/// the names that have an entry, each once. The order is that in which the
/// map walks its shards, and nothing is claimed of it.
#[verifier::external_body]
pub(crate) fn index_names(index: &DependencyIndex) -> (names: Vec<String>)
    ensures
        is_listing_of(texts(names@), index_entries(*index)),
{
    index.iter().map(|entry| entry.key().clone()).collect()
}

/// `group`, once for each time `members` lists `name`.
pub open spec fn hits(group: Seq<char>, members: Seq<String>, name: Seq<char>) -> Seq<Seq<char>>
    decreases members.len(),
{
    if members.len() == 0 {
        Seq::empty()
    } else {
        hits(group, members.drop_last(), name) + if members.last()@ == name {
            seq![group]
        } else {
            Seq::empty()
        }
    }
}

/// The names of the groups that list `name`, in the order of `groups`; a
/// group is named once for each time it lists `name`.
pub open spec fn groups_listing(groups: Seq<Group>, name: Seq<char>) -> Seq<Seq<char>>
    decreases groups.len(),
{
    if groups.len() == 0 {
        Seq::empty()
    } else {
        groups_listing(groups.drop_last(), name) + hits(
            groups.last().name@,
            groups.last().members@,
            name,
        )
    }
}

/// The positions of the packages named `name`, in the order of the graph.
pub open spec fn nodes_named(nodes: Seq<GraphNode>, name: Seq<char>) -> Seq<usize>
    decreases nodes.len(),
{
    if nodes.len() == 0 {
        Seq::empty()
    } else {
        nodes_named(nodes.drop_last(), name) + if nodes.last().name@ == name {
            seq![(nodes.len() - 1) as usize]
        } else {
            Seq::empty()
        }
    }
}

/// The dependency index of `groups` over the packages `nodes`: an entry for
/// each name that some group lists and some package bears.
pub open spec fn dependency_entries(groups: Seq<Group>, nodes: Seq<GraphNode>) -> IndexEntries {
    Map::new(
        |name: Seq<char>| groups_listing(groups, name).len() > 0 && nodes_named(nodes, name).len() > 0,
        |name: Seq<char>| (nodes_named(nodes, name), groups_listing(groups, name)),
    )
}

/// The index while the groups are read: `groups` are done, and of the next
/// group, named `group`, the members `members`.
spec fn listed_entries(groups: Seq<Group>, group: Seq<char>, members: Seq<String>) -> IndexEntries {
    Map::new(
        |name: Seq<char>| (groups_listing(groups, name) + hits(group, members, name)).len() > 0,
        |name: Seq<char>|
            (Seq::<usize>::empty(), groups_listing(groups, name) + hits(group, members, name)),
    )
}

/// The index while the graph is read: all `groups` and the packages `nodes`
/// are done.
spec fn resolved_entries(groups: Seq<Group>, nodes: Seq<GraphNode>) -> IndexEntries {
    Map::new(
        |name: Seq<char>| groups_listing(groups, name).len() > 0,
        |name: Seq<char>| (nodes_named(nodes, name), groups_listing(groups, name)),
    )
}

/// Builds the dependency index of the engine's ruleset over its graph.
///
/// Each name that a group lists gets an entry that names the group, once for
/// each time the group lists it, in the order of the ruleset. Each package of
/// the graph whose name has an entry is added to it, in the order of the
/// graph. Entries that no package was added to are dropped.
pub fn eval_ruleset(engine_state: &EngineState) -> (built: Result<DependencyIndex, Error>)
    ensures
        built matches Ok(index) && index_entries(index) == dependency_entries(
            engine_state.ruleset.groups@,
            engine_state.graph.nodes@,
        ),
        built matches Ok(index) && forall|name: Seq<char>| #[trigger]
            index_entries(index).contains_key(name) ==> index_entries(index)[name].0.len() > 0,
{
    let index = build_dependency_index(&engine_state.ruleset.groups, &engine_state.graph.nodes);
    Ok(index)
}

/// The dependency index of `groups` over the packages `nodes`.
pub fn build_dependency_index(groups: &Vec<Group>, nodes: &Vec<GraphNode>) -> (index:
    DependencyIndex)
    ensures
        index_entries(index) == dependency_entries(groups@, nodes@),
        forall|name: Seq<char>| #[trigger]
            index_entries(index).contains_key(name) ==> index_entries(index)[name].0.len() > 0,
{
    let mut index = index_new();
    let mut g: usize = 0;
    assert(index_entries(index) =~= listed_entries(
        groups@.take(0),
        Seq::empty(),
        Seq::empty(),
    ));
    while g < groups.len()
        invariant
            g <= groups@.len(),
            index_entries(index) == listed_entries(
                groups@.take(g as int),
                Seq::empty(),
                Seq::empty(),
            ),
        decreases groups@.len() - g,
    {
        let group = &groups[g];
        let ghost done = groups@.take(g as int);
        let mut m: usize = 0;
        assert(index_entries(index) =~= listed_entries(done, group.name@, group.members@.take(0)));
        while m < group.members.len()
            invariant
                m <= group.members@.len(),
                index_entries(index) == listed_entries(
                    done,
                    group.name@,
                    group.members@.take(m as int),
                ),
            decreases group.members@.len() - m,
        {
            let member = &group.members[m];
            match index_get(&index, member.as_str()) {
                Some(mut property) => {
                    property.insert_group(group.name.as_str());
                    index_insert(&mut index, member.clone(), property);
                },
                None => {
                    index_insert(
                        &mut index,
                        member.clone(),
                        DependencyProperty::new(group.name.as_str()),
                    );
                },
            }
            proof {
                let read = group.members@.take(m as int);
                let more = group.members@.take(m + 1);
                assert(more.drop_last() =~= read);
                assert(more.last() == member);
                assert forall|name: Seq<char>|
                    groups_listing(done, name) + hits(group.name@, more, name) == (
                    groups_listing(done, name) + hits(group.name@, read, name)) + if member@
                        == name {
                        seq![group.name@]
                    } else {
                        Seq::empty()
                    } by {
                    assert(groups_listing(done, name) + hits(group.name@, more, name) =~= (
                    groups_listing(done, name) + hits(group.name@, read, name)) + if member@
                        == name {
                        seq![group.name@]
                    } else {
                        Seq::empty()
                    });
                }
                let listing = groups_listing(done, member@) + hits(group.name@, read, member@);
                assert(listing.push(group.name@) =~= listing + seq![group.name@]);
                assert(Seq::<Seq<char>>::empty() + seq![group.name@] =~= seq![group.name@]);
                assert(index_entries(index) =~= listed_entries(done, group.name@, more));
            }
            m += 1;
        }
        proof {
            let next = groups@.take(g + 1);
            assert(next.drop_last() =~= done);
            assert(next.last() == group);
            assert(group.members@.take(group.members@.len() as int) =~= group.members@);
            assert(index_entries(index) =~= listed_entries(next, Seq::empty(), Seq::empty()));
        }
        g += 1;
    }
    assert(groups@.take(groups@.len() as int) =~= groups@);
    assert(index_entries(index) =~= resolved_entries(groups@, nodes@.take(0)));
    let mut n: usize = 0;
    while n < nodes.len()
        invariant
            n <= nodes@.len(),
            index_entries(index) == resolved_entries(groups@, nodes@.take(n as int)),
        decreases nodes@.len() - n,
    {
        let node = &nodes[n];
        match index_get(&index, node.name.as_str()) {
            Some(mut property) => {
                property.insert_package(n);
                index_insert(&mut index, node.name.clone(), property);
            },
            None => {},
        }
        proof {
            let read = nodes@.take(n as int);
            let more = nodes@.take(n + 1);
            assert(more.drop_last() =~= read);
            assert(more.last() == node);
            assert forall|name: Seq<char>|
                nodes_named(more, name) == if node.name@ == name {
                    nodes_named(read, name).push(n)
                } else {
                    nodes_named(read, name)
                } by {
                assert(nodes_named(more, name) =~= if node.name@ == name {
                    nodes_named(read, name).push(n)
                } else {
                    nodes_named(read, name)
                });
            }
            assert(index_entries(index) =~= resolved_entries(groups@, more));
        }
        n += 1;
    }
    assert(nodes@.take(nodes@.len() as int) =~= nodes@);
    index_retain_resolved(&mut index);
    assert(index_entries(index) =~= dependency_entries(groups@, nodes@));
    index
}

/// Some group lists `name`.
pub open spec fn is_listed(groups: Seq<Group>, name: Seq<char>) -> bool {
    exists|g: int, m: int|
        0 <= g < groups.len() && 0 <= m < groups[g].members@.len() && (
        #[trigger] groups[g].members@[m])@ == name
}

/// Some package bears `name`.
pub open spec fn is_borne(nodes: Seq<GraphNode>, name: Seq<char>) -> bool {
    exists|n: int| 0 <= n < nodes.len() && (#[trigger] nodes[n]).name@ == name
}

/// A group is named for a name exactly when it lists the name.
pub proof fn lemma_hits(group: Seq<char>, members: Seq<String>, name: Seq<char>)
    ensures
        hits(group, members, name).len() > 0 <==> exists|m: int|
            0 <= m < members.len() && (#[trigger] members[m])@ == name,
    decreases members.len(),
{
    if members.len() > 0 {
        let before = members.drop_last();
        lemma_hits(group, before, name);
        if hits(group, before, name).len() > 0 {
            let m = choose|m: int| 0 <= m < before.len() && (#[trigger] before[m])@ == name;
            assert(members[m]@ == name);
        }
        if exists|m: int| 0 <= m < members.len() && (#[trigger] members[m])@ == name {
            let m = choose|m: int| 0 <= m < members.len() && (#[trigger] members[m])@ == name;
            if m < before.len() {
                assert(before[m]@ == name);
            }
        }
    }
}

/// A name has listing groups exactly when some group lists it.
pub proof fn lemma_groups_listing(groups: Seq<Group>, name: Seq<char>)
    ensures
        groups_listing(groups, name).len() > 0 <==> is_listed(groups, name),
    decreases groups.len(),
{
    if groups.len() > 0 {
        let before = groups.drop_last();
        let last = groups.last();
        lemma_groups_listing(before, name);
        lemma_hits(last.name@, last.members@, name);
        if is_listed(before, name) {
            let (g, m) = choose|g: int, m: int|
                0 <= g < before.len() && 0 <= m < before[g].members@.len() && (
                #[trigger] before[g].members@[m])@ == name;
            assert(groups[g].members@[m]@ == name);
        }
        if hits(last.name@, last.members@, name).len() > 0 {
            let m = choose|m: int|
                0 <= m < last.members@.len() && (#[trigger] last.members@[m])@ == name;
            assert(groups[groups.len() - 1].members@[m]@ == name);
        }
        if is_listed(groups, name) {
            let (g, m) = choose|g: int, m: int|
                0 <= g < groups.len() && 0 <= m < groups[g].members@.len() && (
                #[trigger] groups[g].members@[m])@ == name;
            if g < before.len() {
                assert(before[g].members@[m]@ == name);
            } else {
                assert(last.members@[m]@ == name);
            }
        }
    }
}

/// A name resolves to packages exactly when some package bears it.
pub proof fn lemma_nodes_borne(nodes: Seq<GraphNode>, name: Seq<char>)
    ensures
        nodes_named(nodes, name).len() > 0 <==> is_borne(nodes, name),
    decreases nodes.len(),
{
    if nodes.len() > 0 {
        let before = nodes.drop_last();
        lemma_nodes_borne(before, name);
        if is_borne(before, name) {
            let n = choose|n: int| 0 <= n < before.len() && (#[trigger] before[n]).name@ == name;
            assert(nodes[n].name@ == name);
        }
        if nodes.last().name@ == name {
            assert(nodes[nodes.len() - 1].name@ == name);
        }
        if is_borne(nodes, name) {
            let n = choose|n: int| 0 <= n < nodes.len() && (#[trigger] nodes[n]).name@ == name;
            if n < before.len() {
                assert(before[n].name@ == name);
            }
        }
    }
}

/// The dependency index has an entry exactly for the names that some group
/// lists and some package bears, and every entry resolves to at least one
/// package and names at least one group.
pub proof fn lemma_index_is_pruned(groups: Seq<Group>, nodes: Seq<GraphNode>, name: Seq<char>)
    ensures
        dependency_entries(groups, nodes).contains_key(name) <==> is_listed(groups, name)
            && is_borne(nodes, name),
        dependency_entries(groups, nodes).contains_key(name) ==> dependency_entries(
            groups,
            nodes,
        )[name].0.len() > 0 && dependency_entries(groups, nodes)[name].1.len() > 0,
{
    lemma_groups_listing(groups, name);
    lemma_nodes_borne(nodes, name);
}

/// A name that no package bears has no entry in the dependency index,
/// whichever groups list it.
pub proof fn lemma_absent_name_has_no_entry(
    groups: Seq<Group>,
    nodes: Seq<GraphNode>,
    name: Seq<char>,
)
    requires
        !is_borne(nodes, name),
    ensures
        !dependency_entries(groups, nodes).contains_key(name),
{
    lemma_index_is_pruned(groups, nodes, name);
}

} // verus!
