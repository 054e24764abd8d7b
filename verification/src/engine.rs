//! The evaluation of the rules against the graph.

use crate::adjacency::AdjacencyMap;
use crate::cause::{
    explains, investigate, investigation_target, is_root_path, is_traceable,
    lemma_explanation_is_unique, resolves_within,
};
use crate::dependency::{
    build_dependency_index, dependency_entries, index_entries, index_new, is_listing_of,
    nodes_named, Dependency, DependencyIndex, DependencyView, IndexEntries,
};
use crate::graph::{DependencyGraph, GraphNode};
use crate::group::{
    build_group_index, derived_entries, group_entries, group_get, group_new, is_group_index_of,
    is_named, views, GroupEntries, GroupIndex,
};
pub use crate::manifest::CargoManifest;
use crate::package::Package;
use crate::report::{trail_of, ConflictReport, GroupCause, RuleVerdict};
use crate::ruleset::{
    count_present, lemma_conflict_is_final, lemma_state_counts, Group, Rule, RuleState, RuleType,
    Ruleset,
};
use toml_edit::Document;
use vstd::prelude::*;

verus! {

/// Everything one run of the engine works on.
pub struct EngineState {
    pub manifest: CargoManifest,
    pub graph: DependencyGraph,
    pub ruleset: Ruleset,
    pub dependency_index: DependencyIndex,
    pub group_index: GroupIndex,
    pub adj_map: AdjacencyMap,
}

impl EngineState {
    /// The state of a run that has not built its indexes yet.
    pub fn new(manifest: CargoManifest, graph: DependencyGraph, ruleset: Ruleset) -> (state:
        EngineState)
        ensures
            state.manifest == manifest,
            state.graph == graph,
            state.ruleset == ruleset,
            index_entries(state.dependency_index) == IndexEntries::empty(),
            group_entries(state.group_index) == GroupEntries::empty(),
            state.adj_map@ == Map::<usize, Seq<Package>>::empty(),
    {
        EngineState {
            manifest,
            graph,
            ruleset,
            dependency_index: index_new(),
            group_index: group_new(),
            adj_map: AdjacencyMap::new(),
        }
    }

    /// Builds the dependency index and, from it, the group index.
    pub fn build_indexes(&mut self)
        ensures
            final(self).manifest == old(self).manifest,
            final(self).graph == old(self).graph,
            final(self).ruleset == old(self).ruleset,
            final(self).adj_map == old(self).adj_map,
            index_entries(final(self).dependency_index) == dependency_entries(
                old(self).ruleset.groups@,
                old(self).graph.nodes@,
            ),
            is_group_index_of(
                group_entries(final(self).group_index),
                index_entries(final(self).dependency_index),
            ),
    {
        self.dependency_index = build_dependency_index(&self.ruleset.groups, &self.graph.nodes);
        self.group_index = build_group_index(&self.dependency_index);
    }
}

/// `path` explains the dependency at position `at`, and no dependency after
/// it can be traced to the manifest.
pub open spec fn explains_last(
    manifest: &Document<String>,
    graph: &DependencyGraph,
    dependencies: Seq<DependencyView>,
    at: int,
    path: Seq<Package>,
) -> bool {
    &&& 0 <= at < dependencies.len()
    &&& explains(manifest, graph, dependencies[at].1.0, path)
    &&& forall|j: int|
        at < j < dependencies.len() ==> !is_traceable(
            manifest,
            graph,
            (#[trigger] dependencies[j]).1.0,
        )
}

/// `path` explains the last of `dependencies` that can be traced to the
/// manifest.
pub open spec fn explains_any(
    manifest: &Document<String>,
    graph: &DependencyGraph,
    dependencies: Seq<DependencyView>,
    path: Seq<Package>,
) -> bool {
    exists|at: int| #[trigger] explains_last(manifest, graph, dependencies, at, path)
}

/// None of `dependencies` can be traced to the manifest.
pub open spec fn explains_none(
    manifest: &Document<String>,
    graph: &DependencyGraph,
    dependencies: Seq<DependencyView>,
) -> bool {
    forall|j: int|
        0 <= j < dependencies.len() ==> !is_traceable(
            manifest,
            graph,
            (#[trigger] dependencies[j]).1.0,
        )
}

/// `found` is the cause of a group with the dependencies `dependencies`: a
/// shortest causal path of the last dependency that can be traced to the
/// manifest, or `None` when none of them can.
pub open spec fn is_group_cause(
    manifest: &Document<String>,
    graph: &DependencyGraph,
    dependencies: Seq<DependencyView>,
    found: Option<Seq<Package>>,
) -> bool {
    match found {
        Some(path) => explains_any(manifest, graph, dependencies, path),
        None => explains_none(manifest, graph, dependencies),
    }
}

/// A group has one cause and no other.
pub proof fn lemma_group_cause_is_unique(
    manifest: &Document<String>,
    graph: &DependencyGraph,
    dependencies: Seq<DependencyView>,
    first: Option<Seq<Package>>,
    second: Option<Seq<Package>>,
)
    requires
        is_group_cause(manifest, graph, dependencies, first),
        is_group_cause(manifest, graph, dependencies, second),
    ensures
        first == second,
{
    if first is Some {
        let one = choose|at: int| #[trigger]
            explains_last(manifest, graph, dependencies, at, first->0);
        lemma_explained_is_traceable(manifest, graph, dependencies[one].1.0, first->0);
        if second is Some {
            let other = choose|at: int| #[trigger]
                explains_last(manifest, graph, dependencies, at, second->0);
            lemma_explained_is_traceable(manifest, graph, dependencies[other].1.0, second->0);
            assert(one == other);
            lemma_explanation_is_unique(
                manifest,
                graph,
                dependencies[one].1.0,
                first->0,
                second->0,
            );
        }
    } else if second is Some {
        let other = choose|at: int| #[trigger]
            explains_last(manifest, graph, dependencies, at, second->0);
        lemma_explained_is_traceable(manifest, graph, dependencies[other].1.0, second->0);
    }
}

/// A dependency that has an explanation can be traced to the manifest.
proof fn lemma_explained_is_traceable(
    manifest: &Document<String>,
    graph: &DependencyGraph,
    ids: Seq<usize>,
    path: Seq<Package>,
)
    requires
        explains(manifest, graph, ids, path),
    ensures
        is_traceable(manifest, graph, ids),
{
    let target = investigation_target(graph, ids)->0;
    assert(is_root_path(manifest, graph, target, path));
}

/// Every dependency of `dependencies` resolves to packages of the graph.
pub open spec fn all_resolve_within(graph: &DependencyGraph, dependencies: Seq<DependencyView>) -> bool {
    forall|i: int|
        0 <= i < dependencies.len() ==> resolves_within(graph, (#[trigger] dependencies[i]).1.0)
}

/// Every dependency of the group index resolves to packages of the graph.
pub open spec fn index_fits(graph: &DependencyGraph, entries: GroupEntries) -> bool {
    forall|name: Seq<char>|
        entries.contains_key(name) ==> all_resolve_within(graph, #[trigger] entries[name])
}

/// Finds the cause of a group: the causal path of the last of its
/// dependencies that can be traced to the manifest.
pub fn explain_group(
    manifest: &Document<String>,
    graph: &DependencyGraph,
    dependencies: &Vec<Dependency>,
) -> (found: Option<Vec<Package>>)
    requires
        graph.wf(),
        all_resolve_within(graph, views(dependencies@)),
    ensures
        is_group_cause(manifest, graph, views(dependencies@), trail_of(found)),
{
    let mut i: usize = dependencies.len();
    while i > 0
        invariant
            i <= dependencies@.len(),
            graph.wf(),
            all_resolve_within(graph, views(dependencies@)),
            forall|j: int|
                i <= j < dependencies@.len() ==> !is_traceable(
                    manifest,
                    graph,
                    (#[trigger] views(dependencies@)[j]).1.0,
                ),
        decreases i,
    {
        i -= 1;
        assert(resolves_within(graph, views(dependencies@)[i as int].1.0));
        let found = investigate(manifest, graph, &dependencies[i].properties.package_ids);
        if found.is_some() {
            proof {
                let listed = views(dependencies@);
                let path = found->0@;
                assert(explains(manifest, graph, listed[i as int].1.0, path));
                assert(explains_last(manifest, graph, listed, i as int, path));
                assert(trail_of(found) == Some(path));
                assert(explains_any(manifest, graph, listed, path));
            }
            return found;
        }
    }
    None
}

/// Which of the `targets` have an entry in the group index, in order.
pub open spec fn presence(targets: Seq<String>, entries: GroupEntries) -> Seq<bool> {
    Seq::new(targets.len(), |i: int| entries.contains_key(targets[i]@))
}

/// The positions of the target groups that a `OneOf` rule implicates: those
/// that are present, up to the second.
pub open spec fn implicated(present: Seq<bool>) -> Seq<int>
    decreases present.len(),
{
    if present.len() == 0 {
        Seq::empty()
    } else {
        let before = implicated(present.drop_last());
        if present.last() && before.len() < 2 {
            before.push(present.len() - 1)
        } else {
            before
        }
    }
}

/// `report` is the report of the conflict of `rule`: it carries the
/// identifier, reason and severity of the rule, and for each implicated group,
/// in order, its name, its cause and the span that the cause points at.
pub open spec fn is_report(
    rule: &Rule,
    entries: GroupEntries,
    manifest: &Document<String>,
    graph: &DependencyGraph,
    report: ConflictReport,
) -> bool {
    let involved = implicated(presence(rule.targets@, entries));
    &&& report.rule_id@ == rule.id@
    &&& report.reason@ == rule.reason@
    &&& report.severity == rule.severity
    &&& report.causes@.len() == involved.len()
    &&& forall|k: int|
        0 <= k < involved.len() ==> {
            let cause = #[trigger] report.causes@[k];
            let group = rule.targets@[involved[k]]@;
            &&& cause.group@ == group
            &&& cause.wf()
            &&& is_group_cause(manifest, graph, entries[group], cause.trail())
        }
}

/// `verdict` is the verdict on `rule`.
///
/// A rule of another type than `OneOf` is unsupported. A `OneOf` rule has no
/// group when none of its targets is present in the group index, is satisfied
/// when exactly one is, and is in conflict when two or more are.
pub open spec fn is_verdict(
    rule: &Rule,
    entries: GroupEntries,
    manifest: &Document<String>,
    graph: &DependencyGraph,
    verdict: RuleVerdict,
) -> bool {
    if rule._type != RuleType::OneOf {
        verdict is Unsupported
    } else {
        match RuleState::after(presence(rule.targets@, entries)) {
            RuleState::NoGroupFound => verdict is NoGroupFound,
            RuleState::NoConflict => verdict is Satisfied,
            RuleState::Conflict => verdict matches RuleVerdict::Conflict(report) && is_report(
                rule,
                entries,
                manifest,
                graph,
                report,
            ),
        }
    }
}

/// A `OneOf` rule implicates as many groups as are present, and never more
/// than two.
pub proof fn lemma_implicated_len(present: Seq<bool>)
    ensures
        implicated(present).len() == if count_present(present) < 2 {
            count_present(present)
        } else {
            2
        },
        forall|k: int|
            0 <= k < implicated(present).len() ==> 0 <= (#[trigger] implicated(present)[k])
                < present.len() && present[implicated(present)[k]],
    decreases present.len(),
{
    if present.len() > 0 {
        lemma_implicated_len(present.drop_last());
        let before = implicated(present.drop_last());
        assert forall|k: int| 0 <= k < implicated(present).len() implies 0 <= (
        #[trigger] implicated(present)[k]) < present.len() && present[implicated(present)[k]] by {
            if k < before.len() {
                assert(present.drop_last()[before[k]] == present[before[k]]);
            }
        }
    }
}

/// Once a `OneOf` rule implicates two groups, further target groups add none.
pub proof fn lemma_implicated_is_final(present: Seq<bool>, more: Seq<bool>)
    requires
        implicated(present).len() == 2,
    ensures
        implicated(present + more) == implicated(present),
    decreases more.len(),
{
    if more.len() == 0 {
        assert(present + more =~= present);
    } else {
        assert((present + more).drop_last() =~= present + more.drop_last());
        lemma_implicated_is_final(present, more.drop_last());
    }
}

/// Evaluates one rule against the group index.
///
/// The target groups of a `OneOf` rule are looked up in declared order until
/// a second one is found present. Two present groups are a conflict, and each
/// of the two is then traced to the manifest.
pub fn evaluate_rule(
    rule: &Rule,
    groups: &GroupIndex,
    graph: &DependencyGraph,
    manifest: &Document<String>,
) -> (verdict: RuleVerdict)
    requires
        graph.wf(),
        index_fits(graph, group_entries(*groups)),
    ensures
        is_verdict(rule, group_entries(*groups), manifest, graph, verdict),
{
    match rule._type {
        RuleType::OneOf => {},
        _ => {
            return RuleVerdict::Unsupported;
        },
    }
    let ghost entries = group_entries(*groups);
    let ghost present = presence(rule.targets@, entries);
    let mut state = RuleState::NoGroupFound;
    let mut involved: Vec<usize> = Vec::new();
    let mut lists: Vec<Vec<Dependency>> = Vec::new();
    let mut i: usize = 0;
    assert(present.take(0) =~= Seq::<bool>::empty());
    while i < rule.targets.len() && !state.is_conflict()
        invariant
            i <= rule.targets@.len(),
            entries == group_entries(*groups),
            present == presence(rule.targets@, entries),
            state == RuleState::after(present.take(i as int)),
            involved@.len() == implicated(present.take(i as int)).len(),
            lists@.len() == involved@.len(),
            forall|k: int|
                0 <= k < involved@.len() ==> (#[trigger] involved@[k]) == implicated(
                    present.take(i as int),
                )[k],
            forall|k: int|
                0 <= k < involved@.len() ==> involved@[k] < i && entries.contains_key(
                    rule.targets@[involved@[k] as int]@,
                ) && views((#[trigger] lists@[k])@) == entries[rule.targets@[involved@[k] as int]@],
        decreases rule.targets@.len() - i,
    {
        proof {
            assert(present.take(i + 1).drop_last() =~= present.take(i as int));
            lemma_state_counts(present.take(i as int));
            lemma_implicated_len(present.take(i as int));
        }
        match group_get(groups, rule.targets[i].as_str()) {
            Some(dependencies) => {
                involved.push(i);
                lists.push(dependencies);
                state = state.advance(true);
            },
            None => {
                state = state.advance(false);
            },
        }
        i += 1;
    }
    proof {
        let read = present.take(i as int);
        let rest = present.skip(i as int);
        assert(read + rest =~= present);
        lemma_state_counts(read);
        lemma_implicated_len(read);
        if i < rule.targets@.len() {
            lemma_conflict_is_final(read, rest);
            lemma_implicated_is_final(read, rest);
        } else {
            assert(read =~= present);
        }
    }
    match state {
        RuleState::NoGroupFound => RuleVerdict::NoGroupFound,
        RuleState::NoConflict => RuleVerdict::Satisfied,
        RuleState::Conflict => {
            let mut causes: Vec<GroupCause> = Vec::new();
            let mut k: usize = 0;
            while k < involved.len()
                invariant
                    k <= involved@.len(),
                    graph.wf(),
                    index_fits(graph, entries),
                    causes@.len() == k,
                    lists@.len() == involved@.len(),
                    forall|j: int|
                        0 <= j < involved@.len() ==> involved@[j] < rule.targets@.len()
                            && entries.contains_key(rule.targets@[involved@[j] as int]@) && views(
                            (#[trigger] lists@[j])@,
                        ) == entries[rule.targets@[involved@[j] as int]@],
                    forall|j: int|
                        0 <= j < k ==> {
                            let cause = #[trigger] causes@[j];
                            let group = rule.targets@[involved@[j] as int]@;
                            &&& cause.group@ == group
                            &&& cause.wf()
                            &&& is_group_cause(manifest, graph, entries[group], cause.trail())
                        },
                decreases involved@.len() - k,
            {
                assert(views(lists@[k as int]@) == entries[rule.targets@[involved@[k as int] as int]@]);
                let target = &rule.targets[involved[k]];
                assert(all_resolve_within(graph, entries[target@]));
                let path = explain_group(manifest, graph, &lists[k]);
                causes.push(GroupCause::new(target.clone(), path));
                k += 1;
            }
            let report = ConflictReport {
                rule_id: rule.id.clone(),
                reason: rule.reason.clone(),
                severity: rule.severity,
                causes,
            };
            RuleVerdict::Conflict(report)
        },
    }
}

/// The verdict on a `OneOf` rule goes by the number of its target groups that
/// are present: none, and no group is found; one, and the rule is satisfied;
/// two or more, and there is one conflict, which implicates two groups.
pub proof fn lemma_verdict_by_count(
    rule: &Rule,
    entries: GroupEntries,
    manifest: &Document<String>,
    graph: &DependencyGraph,
    verdict: RuleVerdict,
)
    requires
        rule._type == RuleType::OneOf,
        is_verdict(rule, entries, manifest, graph, verdict),
    ensures
        verdict is NoGroupFound <==> count_present(presence(rule.targets@, entries)) == 0,
        verdict is Satisfied <==> count_present(presence(rule.targets@, entries)) == 1,
        verdict is Conflict <==> count_present(presence(rule.targets@, entries)) >= 2,
        verdict matches RuleVerdict::Conflict(report) ==> report.causes@.len() == 2,
        !(verdict is Unsupported),
{
    lemma_state_counts(presence(rule.targets@, entries));
    lemma_implicated_len(presence(rule.targets@, entries));
}

/// The positions of the packages that bear a name are positions of the
/// graph, and each of them bears the name.
pub proof fn lemma_nodes_named(nodes: Seq<GraphNode>, name: Seq<char>)
    requires
        nodes.len() <= usize::MAX,
    ensures
        forall|k: int|
            0 <= k < nodes_named(nodes, name).len() ==> (#[trigger] nodes_named(nodes, name)[k])
                < nodes.len() && nodes[nodes_named(nodes, name)[k] as int].name@ == name,
    decreases nodes.len(),
{
    if nodes.len() > 0 {
        lemma_nodes_named(nodes.drop_last(), name);
        let before = nodes_named(nodes.drop_last(), name);
        let all = nodes_named(nodes, name);
        assert forall|k: int| 0 <= k < all.len() implies (#[trigger] all[k]) < nodes.len()
            && nodes[all[k] as int].name@ == name by {
            if k < before.len() {
                assert(all[k] == before[k]);
                assert(nodes.drop_last()[before[k] as int] == nodes[before[k] as int]);
            } else {
                assert(all[k] == (nodes.len() - 1) as usize);
            }
        }
    }
}

/// A group index of the dependency index that is built from a graph resolves
/// within the graph.
pub proof fn lemma_index_fits(graph: &DependencyGraph, groups: Seq<Group>, filed: GroupEntries)
    requires
        is_group_index_of(filed, dependency_entries(groups, graph.nodes@)),
    ensures
        index_fits(graph, filed),
{
    let entries = dependency_entries(groups, graph.nodes@);
    assert forall|name: Seq<char>| filed.contains_key(name) implies all_resolve_within(
        graph,
        #[trigger] filed[name],
    ) by {
        assert forall|i: int| 0 <= i < filed[name].len() implies resolves_within(
            graph,
            (#[trigger] filed[name][i]).1.0,
        ) by {
            let dependency = filed[name][i];
            assert(entries.contains_key(dependency.0) && dependency.1 == entries[dependency.0]);
            assert(graph.nodes.len() == graph.nodes@.len());
            lemma_nodes_named(graph.nodes@, dependency.0);
        }
    }
}

/// Which groups have an entry does not depend on the order in which the
/// dependency index hands out its names: two group indexes of one dependency
/// index find the same target groups present.
pub proof fn lemma_presence_is_fixed(
    entries: IndexEntries,
    first: GroupEntries,
    second: GroupEntries,
    targets: Seq<String>,
)
    requires
        is_group_index_of(first, entries),
        is_group_index_of(second, entries),
    ensures
        presence(targets, first) == presence(targets, second),
{
    assert forall|i: int| 0 <= i < targets.len() implies presence(targets, first)[i] == presence(
        targets,
        second,
    )[i] by {
        assert(first.contains_key(targets[i]@) <==> is_named(entries, targets[i]@));
        assert(second.contains_key(targets[i]@) <==> is_named(entries, targets[i]@));
    }
    assert(presence(targets, first) =~= presence(targets, second));
}

/// `verdicts` are the verdicts on `rules`, one for each rule, in order.
pub open spec fn are_verdicts(
    rules: Seq<Rule>,
    entries: GroupEntries,
    manifest: &Document<String>,
    graph: &DependencyGraph,
    verdicts: Seq<RuleVerdict>,
) -> bool {
    &&& verdicts.len() == rules.len()
    &&& forall|i: int|
        0 <= i < rules.len() ==> is_verdict(&rules[i], entries, manifest, graph, #[trigger] verdicts[i])
}

/// Evaluates every rule of the ruleset against the graph.
///
/// The dependency index and, from it, the group index are built once. The
/// verdicts come in the order of the rules; a rule that cannot be evaluated
/// does not keep the rules after it from being evaluated. The order in which
/// the dependencies stand under a group is that in which the dependency index
/// hands out its names; the groups that have an entry do not depend on it.
pub fn evaluate(ruleset: &Ruleset, graph: &DependencyGraph, manifest: &CargoManifest) -> (verdicts:
    Vec<RuleVerdict>)
    requires
        graph.wf(),
    ensures
        verdicts@.len() == ruleset.rules@.len(),
        exists|names: Seq<Seq<char>>| #[trigger]
            is_listing_of(names, dependency_entries(ruleset.groups@, graph.nodes@))
                && are_verdicts(
                ruleset.rules@,
                derived_entries(dependency_entries(ruleset.groups@, graph.nodes@), names),
                &manifest.document,
                graph,
                verdicts@,
            ),
{
    let dependencies = build_dependency_index(&ruleset.groups, &graph.nodes);
    let groups = build_group_index(&dependencies);
    let ghost entries = dependency_entries(ruleset.groups@, graph.nodes@);
    let ghost names = choose|names: Seq<Seq<char>>| #[trigger]
        is_listing_of(names, entries) && group_entries(groups) == derived_entries(entries, names);
    proof {
        lemma_index_fits(graph, ruleset.groups@, group_entries(groups));
    }
    let mut verdicts: Vec<RuleVerdict> = Vec::new();
    let mut i: usize = 0;
    while i < ruleset.rules.len()
        invariant
            i <= ruleset.rules@.len(),
            graph.wf(),
            index_fits(graph, group_entries(groups)),
            verdicts@.len() == i,
            forall|j: int|
                0 <= j < i ==> is_verdict(
                    &ruleset.rules@[j],
                    group_entries(groups),
                    &manifest.document,
                    graph,
                    #[trigger] verdicts@[j],
                ),
        decreases ruleset.rules@.len() - i,
    {
        let verdict = evaluate_rule(&ruleset.rules[i], &groups, graph, &manifest.document);
        verdicts.push(verdict);
        i += 1;
    }
    proof {
        assert(is_listing_of(names, entries) && are_verdicts(
            ruleset.rules@,
            derived_entries(entries, names),
            &manifest.document,
            graph,
            verdicts@,
        ));
    }
    verdicts
}

} // verus!
