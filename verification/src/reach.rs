//! The walk along reverse edges that collects, for one conflicting package,
//! the dependents that can have pulled it in.

use crate::adjacency::{
    lemma_with_dependents_again, with_dependent, with_dependents, AdjacencyMap,
};
use crate::graph::{DependencyGraph, PackageLink};
use crate::manifest::{declared_span, manifest_contains_dep};
use crate::package::Package;
use toml_edit::Document;
use vstd::prelude::*;

verus! {

/// Package `id` of the graph with the span of its declaration in the manifest.
pub open spec fn package_of(
    manifest: &Document<String>,
    graph: &DependencyGraph,
    id: usize,
) -> Package {
    Package { id, span_in_manifest: declared_span(manifest, graph.name_of(id as int)) }
}

/// Package `id` is in the graph and the manifest does not declare it.
pub open spec fn is_transitive(
    manifest: &Document<String>,
    graph: &DependencyGraph,
    id: usize,
) -> bool {
    id < graph.size() && declared_span(manifest, graph.name_of(id as int)) is None
}

/// Every package of `chain` is absent from the manifest and has the next one
/// as a direct dependent.
pub open spec fn is_transitive_chain(
    manifest: &Document<String>,
    graph: &DependencyGraph,
    chain: Seq<usize>,
) -> bool {
    &&& chain.len() > 0
    &&& forall|i: int|
        0 <= i < chain.len() ==> is_transitive(manifest, graph, #[trigger] chain[i])
    &&& forall|i: int|
        0 <= i < chain.len() - 1 ==> graph.dependents_of((#[trigger] chain[i]) as int).contains(
            chain[i + 1],
        )
}

/// The walk that starts at `start` goes on through `id`: a chain of direct
/// dependents leads from `start` to `id`, and the manifest declares none of
/// its packages, `start` and `id` included.
pub open spec fn expands(
    manifest: &Document<String>,
    graph: &DependencyGraph,
    start: usize,
    id: usize,
) -> bool {
    exists|chain: Seq<usize>| #[trigger]
        is_transitive_chain(manifest, graph, chain) && chain[0] == start && chain.last() == id
}

/// The walk from `link` records `dependent` as a direct dependent of `id`:
/// the edge is `link` itself, or the walk goes on through `id` and `dependent`
/// is one of its direct dependents.
pub open spec fn records(
    manifest: &Document<String>,
    graph: &DependencyGraph,
    link: PackageLink,
    id: usize,
    dependent: usize,
) -> bool {
    ||| id == link.to && dependent == link.from
    ||| expands(manifest, graph, link.from, id) && graph.dependents_of(id as int).contains(
        dependent,
    )
}

/// The packages `ids` of the graph, each with the span of its declaration.
pub open spec fn packages_of(
    manifest: &Document<String>,
    graph: &DependencyGraph,
    ids: Seq<usize>,
) -> Seq<Package> {
    Seq::new(ids.len(), |i: int| package_of(manifest, graph, ids[i]))
}

/// What the walk from `link` appends to the dependents of `id`, in order:
/// the dependent of `link` itself where `id` is its dependency, then, where
/// the walk goes on through `id`, the direct dependents of `id` as the graph
/// lists them.
pub open spec fn appended(
    manifest: &Document<String>,
    graph: &DependencyGraph,
    link: PackageLink,
    id: usize,
) -> Seq<Package> {
    (if id == link.to {
        seq![package_of(manifest, graph, link.from)]
    } else {
        Seq::empty()
    }) + (if expands(manifest, graph, link.from, id) {
        packages_of(manifest, graph, graph.dependents_of(id as int))
    } else {
        Seq::empty()
    })
}

/// What the walk from `link` has appended to the dependents of `id` when the
/// packages `done` are dealt with and, of `current`, the first `k`
/// dependents.
spec fn appended_so_far(
    manifest: &Document<String>,
    graph: &DependencyGraph,
    link: PackageLink,
    done: Set<usize>,
    current: Option<usize>,
    k: int,
    id: usize,
) -> Seq<Package> {
    (if id == link.to {
        seq![package_of(manifest, graph, link.from)]
    } else {
        Seq::empty()
    }) + (if done.contains(id) {
        packages_of(manifest, graph, graph.dependents_of(id as int))
    } else if current == Some(id) {
        packages_of(manifest, graph, graph.dependents_of(id as int).take(k))
    } else {
        Seq::empty()
    })
}

/// `after` is `before` after the walk from `link`: a package has dependents
/// recorded exactly when it had before or the walk records one for it, and
/// its dependents are those it had, followed by what the walk appends.
pub open spec fn is_walk_of(
    before: &AdjacencyMap,
    after: &AdjacencyMap,
    manifest: &Document<String>,
    graph: &DependencyGraph,
    link: PackageLink,
) -> bool {
    &&& forall|id: usize| #[trigger]
        after@.contains_key(id) <==> before@.contains_key(id) || exists|dependent: usize| #[trigger]
            records(manifest, graph, link, id, dependent)
    &&& forall|id: usize| #[trigger]
        after.dependents_of(id) == with_dependents(
            before.dependents_of(id),
            appended(manifest, graph, link, id),
        )
}

/// The walk from a link determines the map: two maps that come of the same
/// walk from the same map hold the same.
pub proof fn lemma_walk_is_determined(
    before: &AdjacencyMap,
    first: &AdjacencyMap,
    second: &AdjacencyMap,
    manifest: &Document<String>,
    graph: &DependencyGraph,
    link: PackageLink,
)
    requires
        is_walk_of(before, first, manifest, graph, link),
        is_walk_of(before, second, manifest, graph, link),
    ensures
        first@ == second@,
{
    assert forall|id: usize| first@.contains_key(id) implies first@[id] == second@[id] by {
        assert(first.dependents_of(id) == second.dependents_of(id));
    }
    assert(first@ =~= second@);
}

/// A second walk from the same link changes nothing.
pub proof fn lemma_walk_again(
    before: &AdjacencyMap,
    once: &AdjacencyMap,
    twice: &AdjacencyMap,
    manifest: &Document<String>,
    graph: &DependencyGraph,
    link: PackageLink,
)
    requires
        is_walk_of(before, once, manifest, graph, link),
        is_walk_of(once, twice, manifest, graph, link),
    ensures
        twice@ == once@,
{
    assert forall|id: usize| #[trigger] twice.dependents_of(id) == once.dependents_of(id) by {
        lemma_with_dependents_again(
            before.dependents_of(id),
            appended(manifest, graph, link, id),
        );
    }
    assert forall|id: usize| twice@.contains_key(id) implies once@.contains_key(id)
        && twice@[id] == once@[id] by {
        assert(twice.dependents_of(id) == once.dependents_of(id));
    }
    assert(twice@ =~= once@);
}

/// The number of `false` entries.
spec fn unmarked(flags: Seq<bool>) -> nat
    decreases flags.len(),
{
    if flags.len() == 0 {
        0
    } else {
        unmarked(flags.drop_last()) + if flags.last() {
            0nat
        } else {
            1nat
        }
    }
}

proof fn lemma_mark(flags: Seq<bool>, at: int)
    requires
        0 <= at < flags.len(),
        !flags[at],
    ensures
        unmarked(flags.update(at, true)) + 1 == unmarked(flags),
    decreases flags.len(),
{
    if at == flags.len() - 1 {
        assert(flags.update(at, true).drop_last() =~= flags.drop_last());
    } else {
        assert(flags.update(at, true).drop_last() =~= flags.drop_last().update(at, true));
        lemma_mark(flags.drop_last(), at);
    }
}

/// What the walk has settled: every package it went through is in `done`,
/// and `done` is closed under direct dependents that the manifest does not
/// declare.
spec fn is_closed(
    manifest: &Document<String>,
    graph: &DependencyGraph,
    start: usize,
    done: Set<usize>,
) -> bool {
    &&& is_transitive(manifest, graph, start) ==> done.contains(start)
    &&& forall|id: usize, k: int|
        done.contains(id) && 0 <= k < graph.dependents_of(id as int).len() && is_transitive(
            manifest,
            graph,
            #[trigger] graph.dependents_of(id as int)[k],
        ) ==> done.contains(graph.dependents_of(id as int)[k])
}

proof fn lemma_closed_holds_chain(
    manifest: &Document<String>,
    graph: &DependencyGraph,
    start: usize,
    done: Set<usize>,
    chain: Seq<usize>,
)
    requires
        is_closed(manifest, graph, start, done),
        is_transitive_chain(manifest, graph, chain),
        chain[0] == start,
    ensures
        done.contains(chain.last()),
    decreases chain.len(),
{
    if chain.len() > 1 {
        let shorter = chain.drop_last();
        let at = chain.len() - 2;
        assert(is_transitive_chain(manifest, graph, shorter)) by {
            assert forall|i: int| 0 <= i < shorter.len() - 1 implies graph.dependents_of(
                (#[trigger] shorter[i]) as int,
            ).contains(shorter[i + 1]) by {
                assert(graph.dependents_of(chain[i] as int).contains(chain[i + 1]));
            }
        }
        lemma_closed_holds_chain(manifest, graph, start, done, shorter);
        assert(shorter.last() == chain[at]);
        let siblings = graph.dependents_of(chain[at] as int);
        assert(siblings.contains(chain[at + 1]));
        let k = choose|k: int| 0 <= k < siblings.len() && siblings[k] == chain[at + 1];
        assert(is_transitive(manifest, graph, graph.dependents_of(chain[at] as int)[k]));
    }
}

/// Package `id` of the graph with the span of its declaration in the manifest.
pub fn resolve_package(manifest: &Document<String>, graph: &DependencyGraph, id: usize) -> (package:
    Package)
    requires
        id < graph.size(),
    ensures
        package == package_of(manifest, graph, id),
{
    Package::new(id, manifest_contains_dep(manifest, graph.nodes[id].name.as_str()))
}

/// Walks the reverse edges from `link`, breadth first, and records them in
/// `adj_map`.
///
/// The edge `link` itself is recorded. From a dependent that the manifest
/// does not declare the walk goes on to its own dependents; at a dependent
/// that the manifest declares the branch ends. What `adj_map` held before
/// stays; a dependent is not recorded twice for the same package. The
/// dependents of a package are recorded in the order in which the graph
/// lists them.
pub fn reverse_bfs(
    manifest: &Document<String>,
    graph: &DependencyGraph,
    link: PackageLink,
    adj_map: &mut AdjacencyMap,
)
    requires
        graph.wf(),
        link.from < graph.size(),
        link.to < graph.size(),
    ensures
        forall|id: usize, dependent: Package| #[trigger]
            final(adj_map).has_edge(id, dependent) <==> old(adj_map).has_edge(id, dependent) || (
            records(manifest, graph, link, id, dependent.id) && dependent == package_of(
                manifest,
                graph,
                dependent.id,
            ) && !old(adj_map).has_dependent(id, dependent.id)),
        forall|id: usize, dependent: usize| #[trigger]
            final(adj_map).has_dependent(id, dependent) <==> old(adj_map).has_dependent(
                id,
                dependent,
            ) || records(manifest, graph, link, id, dependent),
        forall|id: usize| #[trigger]
            final(adj_map).dependents_of(id) == with_dependents(
                old(adj_map).dependents_of(id),
                appended(manifest, graph, link, id),
            ),
        forall|id: usize| #[trigger]
            final(adj_map)@.contains_key(id) <==> old(adj_map)@.contains_key(id) || exists|
                dependent: usize,
            | #[trigger] records(manifest, graph, link, id, dependent),
        is_walk_of(old(adj_map), final(adj_map), manifest, graph, link),
        old(adj_map).wf() ==> final(adj_map).wf(),
{
    let count = graph.nodes.len();
    let mut discovered: Vec<bool> = Vec::new();
    while discovered.len() < count
        invariant
            discovered@.len() <= count,
            forall|i: int| 0 <= i < discovered@.len() ==> !discovered@[i],
        decreases count - discovered@.len(),
    {
        discovered.push(false);
    }
    // The queue of the walk: the packages before `head` are done, those from
    // `head` on wait for their turn.
    let mut queue: Vec<usize> = Vec::new();
    let mut head: usize = 0;
    let ghost mut done: Set<usize> = Set::empty();
    let ghost mut seen: Set<(usize, usize)> = Set::empty();

    let start = resolve_package(manifest, graph, link.from);
    adj_map.insert(resolve_package(manifest, graph, link.to), start);
    proof {
        seen = seen.insert((link.to, link.from));
        assert forall|id: usize| #[trigger]
            adj_map@.contains_key(id) <==> old(adj_map)@.contains_key(id) || exists|
                dependent: usize,
            | #[trigger] seen.contains((id, dependent)) by {
            if id == link.to {
                assert(seen.contains((id, link.from)));
            }
        }
        assert forall|id: usize| #[trigger]
            adj_map.dependents_of(id) == with_dependents(
                old(adj_map).dependents_of(id),
                appended_so_far(manifest, graph, link, done, None, 0, id),
            ) by {
            let more = appended_so_far(manifest, graph, link, done, None, 0, id);
            let list = old(adj_map).dependents_of(id);
            assert(with_dependents(list, Seq::<Package>::empty()) == list);
            if id == link.to {
                assert(more =~= seq![start]);
                assert(more.drop_last() =~= Seq::<Package>::empty());
                assert(more.last() == start);
                assert(with_dependents(list, more) == with_dependent(list, start));
            } else {
                assert(more =~= Seq::<Package>::empty());
            }
        }
    }
    if !start.is_declared() {
        proof {
            lemma_mark(discovered@, link.from as int);
            let chain = seq![link.from];
            assert(is_transitive_chain(manifest, graph, chain));
            assert(chain[0] == link.from && chain.last() == link.from);
        }
        discovered.set(link.from, true);
        queue.push(link.from);
        assert(queue@[0] == link.from);
    }
    while head < queue.len()
        invariant
            graph.wf(),
            count == graph.size(),
            link.from < count,
            link.to < count,
            discovered@.len() == count,
            head <= queue@.len(),
            forall|id: usize|
                id < count && #[trigger] discovered@[id as int] ==> expands(
                    manifest,
                    graph,
                    link.from,
                    id,
                ) && queue@.contains(id),
            forall|id: usize| #[trigger] done.contains(id) ==> id < count && discovered@[id as int],
            forall|i: int|
                0 <= i < queue@.len() ==> (#[trigger] queue@[i]) < count
                    && discovered@[queue@[i] as int],
            forall|i: int| 0 <= i < head ==> done.contains(#[trigger] queue@[i]),
            forall|i: int, j: int|
                0 <= i < j < queue@.len() ==> (#[trigger] queue@[i]) != (#[trigger] queue@[j]),
            forall|id: usize|
                done.contains(id) ==> exists|i: int| 0 <= i < head && #[trigger] queue@[i] == id,
            forall|id: usize| #[trigger]
                adj_map.dependents_of(id) == with_dependents(
                    old(adj_map).dependents_of(id),
                    appended_so_far(manifest, graph, link, done, None, 0, id),
                ),
            is_transitive(manifest, graph, link.from) ==> discovered@[link.from as int],
            forall|id: usize, k: int|
                done.contains(id) && 0 <= k < graph.dependents_of(id as int).len()
                    && is_transitive(
                    manifest,
                    graph,
                    #[trigger] graph.dependents_of(id as int)[k],
                ) ==> discovered@[graph.dependents_of(id as int)[k] as int],
            forall|id: usize, dependent: usize| #[trigger]
                seen.contains((id, dependent)) <==> (id == link.to && dependent == link.from) || (
                done.contains(id) && graph.dependents_of(id as int).contains(dependent)),
            forall|id: usize, dependent: Package| #[trigger]
                adj_map.has_edge(id, dependent) <==> old(adj_map).has_edge(id, dependent) || (
                seen.contains((id, dependent.id)) && dependent == package_of(
                    manifest,
                    graph,
                    dependent.id,
                ) && !old(adj_map).has_dependent(id, dependent.id)),
            forall|id: usize, dependent: usize| #[trigger]
                adj_map.has_dependent(id, dependent) <==> old(adj_map).has_dependent(
                    id,
                    dependent,
                ) || seen.contains((id, dependent)),
            forall|id: usize| #[trigger]
                adj_map@.contains_key(id) <==> old(adj_map)@.contains_key(id) || exists|
                    dependent: usize,
                | #[trigger] seen.contains((id, dependent)),
            old(adj_map).wf() ==> adj_map.wf(),
        decreases unmarked(discovered@) + queue@.len() - head,
    {
        let ghost budget = unmarked(discovered@) + queue@.len() - head;
        let current = queue[head];
        head += 1;
        let ghost settled = seen;
        let package = resolve_package(manifest, graph, current);
        let dependents = &graph.nodes[current].dependents;
        let mut k: usize = 0;
        proof {
            assert(!done.contains(current)) by {
                if done.contains(current) {
                    let i = choose|i: int| 0 <= i < head - 1 && #[trigger] queue@[i] == current;
                    assert(queue@[i] != queue@[head - 1]);
                }
            }
            assert forall|id: usize| #[trigger]
                adj_map.dependents_of(id) == with_dependents(
                    old(adj_map).dependents_of(id),
                    appended_so_far(manifest, graph, link, done, Some(current), 0, id),
                ) by {
                assert(packages_of(manifest, graph, graph.dependents_of(current as int).take(0))
                    =~= Seq::<Package>::empty());
                assert(appended_so_far(manifest, graph, link, done, Some(current), 0, id)
                    =~= appended_so_far(manifest, graph, link, done, None, 0, id));
            }
        }
        while k < dependents.len()
            invariant
                graph.wf(),
                count == graph.size(),
                link.from < count,
                link.to < count,
                current < count,
                k <= dependents@.len(),
                dependents@ == graph.dependents_of(current as int),
                package == package_of(manifest, graph, current),
                discovered@.len() == count,
                0 < head <= queue@.len(),
                queue@[head - 1] == current,
                expands(manifest, graph, link.from, current),
                forall|id: usize|
                    id < count && #[trigger] discovered@[id as int] ==> expands(
                        manifest,
                        graph,
                        link.from,
                        id,
                    ) && queue@.contains(id),
                forall|id: usize| #[trigger]
                    done.contains(id) ==> id < count && discovered@[id as int],
                forall|i: int|
                    0 <= i < queue@.len() ==> (#[trigger] queue@[i]) < count
                        && discovered@[queue@[i] as int],
                forall|i: int| 0 <= i < head - 1 ==> done.contains(#[trigger] queue@[i]),
                forall|i: int, j: int|
                    0 <= i < j < queue@.len() ==> (#[trigger] queue@[i]) != (#[trigger] queue@[j]),
                forall|id: usize|
                    done.contains(id) ==> exists|i: int|
                        0 <= i < head - 1 && #[trigger] queue@[i] == id,
                forall|id: usize| #[trigger]
                    adj_map.dependents_of(id) == with_dependents(
                        old(adj_map).dependents_of(id),
                        appended_so_far(manifest, graph, link, done, Some(current), k as int, id),
                    ),
                is_transitive(manifest, graph, link.from) ==> discovered@[link.from as int],
                forall|id: usize, j: int|
                    done.contains(id) && 0 <= j < graph.dependents_of(id as int).len()
                        && is_transitive(
                        manifest,
                        graph,
                        #[trigger] graph.dependents_of(id as int)[j],
                    ) ==> discovered@[graph.dependents_of(id as int)[j] as int],
                forall|j: int|
                    0 <= j < k && is_transitive(manifest, graph, #[trigger] dependents@[j])
                        ==> discovered@[dependents@[j] as int],
                forall|id: usize, dependent: usize| #[trigger]
                    seen.contains((id, dependent)) <==> settled.contains((id, dependent)) || (id
                        == current && exists|j: int|
                        0 <= j < k && #[trigger] dependents@[j] == dependent),
                forall|id: usize, dependent: usize| #[trigger]
                    settled.contains((id, dependent)) <==> (id == link.to && dependent
                        == link.from) || (done.contains(id) && graph.dependents_of(
                        id as int,
                    ).contains(dependent)),
                forall|id: usize, dependent: Package| #[trigger]
                    adj_map.has_edge(id, dependent) <==> old(adj_map).has_edge(id, dependent) || (
                    seen.contains((id, dependent.id)) && dependent == package_of(
                        manifest,
                        graph,
                        dependent.id,
                    ) && !old(adj_map).has_dependent(id, dependent.id)),
                forall|id: usize, dependent: usize| #[trigger]
                    adj_map.has_dependent(id, dependent) <==> old(adj_map).has_dependent(
                        id,
                        dependent,
                    ) || seen.contains((id, dependent)),
                forall|id: usize| #[trigger]
                    adj_map@.contains_key(id) <==> old(adj_map)@.contains_key(id) || exists|
                        dependent: usize,
                    | #[trigger] seen.contains((id, dependent)),
                old(adj_map).wf() ==> adj_map.wf(),
                unmarked(discovered@) + queue@.len() - head < budget,
            decreases dependents@.len() - k,
        {
            let next = dependents[k];
            let dependent = resolve_package(manifest, graph, next);
            let ghost recorded = seen;
            let ghost held = *adj_map;
            adj_map.insert(package, dependent);
            proof {
                assert forall|id: usize| #[trigger]
                    adj_map.dependents_of(id) == with_dependents(
                        old(adj_map).dependents_of(id),
                        appended_so_far(manifest, graph, link, done, Some(current), k + 1, id),
                    ) by {
                    let earlier = appended_so_far(
                        manifest,
                        graph,
                        link,
                        done,
                        Some(current),
                        k as int,
                        id,
                    );
                    let later = appended_so_far(
                        manifest,
                        graph,
                        link,
                        done,
                        Some(current),
                        k + 1,
                        id,
                    );
                    assert(held.dependents_of(id) == with_dependents(
                        old(adj_map).dependents_of(id),
                        earlier,
                    ));
                    if id == current {
                        assert(dependents@.take(k + 1).drop_last() =~= dependents@.take(k as int));
                        assert(later =~= earlier.push(dependent));
                        assert(later.drop_last() =~= earlier);
                    } else {
                        assert(later =~= earlier);
                    }
                }
                seen = seen.insert((current, next));
                assert forall|id: usize| #[trigger]
                    adj_map@.contains_key(id) <==> old(adj_map)@.contains_key(id) || exists|
                        other: usize,
                    | #[trigger] seen.contains((id, other)) by {
                    if id == current {
                        assert(seen.contains((id, next)));
                    }
                    if exists|other: usize| #[trigger] recorded.contains((id, other)) {
                        let other = choose|other: usize| #[trigger] recorded.contains((id, other));
                        assert(seen.contains((id, other)));
                    }
                    if exists|other: usize| #[trigger] seen.contains((id, other)) {
                        let other = choose|other: usize| #[trigger] seen.contains((id, other));
                        if id != current {
                            assert(recorded.contains((id, other)));
                        }
                    }
                }
                assert forall|id: usize, other: usize| #[trigger]
                    seen.contains((id, other)) <==> settled.contains((id, other)) || (id
                        == current && exists|j: int|
                        0 <= j < k + 1 && #[trigger] dependents@[j] == other) by {
                    if recorded.contains((id, other)) && !settled.contains((id, other)) {
                        let j = choose|j: int| 0 <= j < k && #[trigger] dependents@[j] == other;
                        assert(0 <= j < k + 1 && dependents@[j] == other);
                    }
                    if id == current && exists|j: int|
                        0 <= j < k + 1 && #[trigger] dependents@[j] == other {
                        let j = choose|j: int| 0 <= j < k + 1 && #[trigger] dependents@[j] == other;
                        if j < k {
                            assert(recorded.contains((id, other)));
                        }
                    }
                }
            }
            if !dependent.is_declared() && !discovered[next] {
                proof {
                    lemma_mark(discovered@, next as int);
                    let chain = choose|chain: Seq<usize>| #[trigger]
                        is_transitive_chain(manifest, graph, chain) && chain[0] == link.from
                            && chain.last() == current;
                    let longer = chain.push(next);
                    assert(is_transitive_chain(manifest, graph, longer)) by {
                        assert forall|i: int| 0 <= i < longer.len() implies is_transitive(
                            manifest,
                            graph,
                            #[trigger] longer[i],
                        ) by {
                            if i < chain.len() {
                                assert(is_transitive(manifest, graph, chain[i]));
                            }
                        }
                        assert forall|i: int| 0 <= i < longer.len() - 1 implies graph.dependents_of(
                            (#[trigger] longer[i]) as int,
                        ).contains(longer[i + 1]) by {
                            if i < chain.len() - 1 {
                                assert(graph.dependents_of(chain[i] as int).contains(chain[i + 1]));
                            } else {
                                assert(dependents@[k as int] == next);
                            }
                        }
                    }
                    assert(longer[0] == link.from && longer.last() == next);
                }
                let ghost waiting = queue@;
                discovered.set(next, true);
                queue.push(next);
                proof {
                    assert(queue@[waiting.len() as int] == next);
                    assert forall|id: usize| waiting.contains(id) implies queue@.contains(id) by {
                        let i = choose|i: int| 0 <= i < waiting.len() && waiting[i] == id;
                        assert(queue@[i] == id);
                    }
                    assert forall|i: int, j: int| 0 <= i < j < queue@.len() implies (
                    #[trigger] queue@[i]) != (#[trigger] queue@[j]) by {
                        if j == waiting.len() {
                            assert(waiting[i] == queue@[i]);
                        } else {
                            assert(waiting[i] == queue@[i] && waiting[j] == queue@[j]);
                        }
                    }
                }
            }
            k += 1;
        }
        proof {
            let settled_done = done;
            done = done.insert(current);
            assert forall|id: usize| #[trigger]
                adj_map.dependents_of(id) == with_dependents(
                    old(adj_map).dependents_of(id),
                    appended_so_far(manifest, graph, link, done, None, 0, id),
                ) by {
                assert(dependents@.take(k as int) =~= dependents@);
                assert(appended_so_far(manifest, graph, link, done, None, 0, id)
                    =~= appended_so_far(
                    manifest,
                    graph,
                    link,
                    settled_done,
                    Some(current),
                    k as int,
                    id,
                ));
            }
            assert forall|id: usize|
                done.contains(id) implies exists|i: int|
                0 <= i < head && #[trigger] queue@[i] == id by {
                if id == current {
                    assert(queue@[head - 1] == id);
                } else {
                    let i = choose|i: int| 0 <= i < head - 1 && #[trigger] queue@[i] == id;
                    assert(0 <= i < head && queue@[i] == id);
                }
            }
            assert forall|id: usize, dependent: usize| #[trigger]
                seen.contains((id, dependent)) <==> (id == link.to && dependent == link.from) || (
                done.contains(id) && graph.dependents_of(id as int).contains(dependent)) by {
                if id == current && graph.dependents_of(id as int).contains(dependent) {
                    let j = choose|j: int|
                        0 <= j < dependents@.len() && dependents@[j] == dependent;
                    assert(0 <= j < k && dependents@[j] == dependent);
                }
            }
        }
    }
    proof {
        assert forall|id: usize| done.contains(id) <==> expands(manifest, graph, link.from, id) by {
            if expands(manifest, graph, link.from, id) {
                let chain = choose|chain: Seq<usize>| #[trigger]
                    is_transitive_chain(manifest, graph, chain) && chain[0] == link.from
                        && chain.last() == id;
                assert(is_closed(manifest, graph, link.from, done)) by {
                    assert forall|other: usize|
                        other < count && #[trigger] discovered@[other as int] implies done.contains(
                        other,
                    ) by {
                        let i = choose|i: int| 0 <= i < queue@.len() && queue@[i] == other;
                        assert(done.contains(queue@[i]));
                    }
                }
                lemma_closed_holds_chain(manifest, graph, link.from, done, chain);
            }
        }
        assert forall|id: usize, dependent: usize| #[trigger]
            seen.contains((id, dependent)) <==> records(manifest, graph, link, id, dependent) by {}
        assert forall|id: usize| #[trigger]
            adj_map@.contains_key(id) <==> old(adj_map)@.contains_key(id) || exists|
                dependent: usize,
            | #[trigger] records(manifest, graph, link, id, dependent) by {
            if exists|dependent: usize| #[trigger] seen.contains((id, dependent)) {
                let dependent = choose|dependent: usize| #[trigger] seen.contains((id, dependent));
                assert(records(manifest, graph, link, id, dependent));
            }
            if exists|dependent: usize| #[trigger] records(manifest, graph, link, id, dependent) {
                let dependent = choose|dependent: usize| #[trigger]
                    records(manifest, graph, link, id, dependent);
                assert(seen.contains((id, dependent)));
            }
        }
        assert forall|id: usize| #[trigger]
            adj_map.dependents_of(id) == with_dependents(
                old(adj_map).dependents_of(id),
                appended(manifest, graph, link, id),
            ) by {
            assert(appended_so_far(manifest, graph, link, done, None, 0, id) =~= appended(
                manifest,
                graph,
                link,
                id,
            ));
        }
    }
}

} // verus!
