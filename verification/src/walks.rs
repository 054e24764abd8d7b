//! The bookkeeping of an investigation: what the adjacency map holds while
//! the reverse edges of a dependency are walked, one after the other.

use crate::adjacency::{lemma_with_dependents_add, with_dependents, AdjacencyMap};
use crate::cause::{is_root_path, part_at, resolves_within, searched_before};
use crate::graph::{DependencyGraph, PackageLink};
use crate::order::{
    distinct_dependents, distinct_prefix, lemma_prefix_absorbs, lemma_prefix_is_whole,
    lemma_prefix_takes, lemma_recorded_order_is_graph_order,
};
use crate::package::Package;
use crate::path::{diverge_at, found_before, is_causal_path};
use crate::reach::{
    appended, expands, is_transitive, is_transitive_chain, package_of, packages_of, records,
    reverse_bfs,
};
use toml_edit::Document;
use vstd::prelude::*;

verus! {

/// The walk from the `k`-th reverse edge of `ids[i]` records `dependent` as a
/// direct dependent of `id`.
spec fn walked(
    manifest: &Document<String>,
    graph: &DependencyGraph,
    ids: Seq<usize>,
    i: int,
    k: int,
    id: usize,
    dependent: usize,
) -> bool {
    &&& 0 <= i < ids.len()
    &&& 0 <= k < graph.dependents_of(ids[i] as int).len()
    &&& records(
        manifest,
        graph,
        PackageLink { from: graph.dependents_of(ids[i] as int)[k], to: ids[i] },
        id,
        dependent,
    )
}

/// One of the walks before the `k`-th reverse edge of `ids[i]` records
/// `dependent` as a direct dependent of `id`.
spec fn walked_before(
    manifest: &Document<String>,
    graph: &DependencyGraph,
    ids: Seq<usize>,
    i: int,
    k: int,
    id: usize,
    dependent: usize,
) -> bool {
    exists|a: int, b: int| #[trigger]
        walked(manifest, graph, ids, a, b, id, dependent) && (a < i || (a == i && b < k))
}

/// `adj_map` holds what the walks before the `k`-th reverse edge of `ids[i]`
/// record, and nothing else.
#[verifier::opaque]
pub(crate) closed spec fn holds_walks(
    adj_map: &AdjacencyMap,
    manifest: &Document<String>,
    graph: &DependencyGraph,
    ids: Seq<usize>,
    i: int,
    k: int,
) -> bool {
    &&& forall|id: usize, dependent: Package| #[trigger]
        adj_map.has_edge(id, dependent) <==> dependent == package_of(manifest, graph, dependent.id)
            && walked_before(manifest, graph, ids, i, k, id, dependent.id)
    &&& forall|id: usize, dependent: usize| #[trigger]
        adj_map.has_dependent(id, dependent) <==> walked_before(
            manifest,
            graph,
            ids,
            i,
            k,
            id,
            dependent,
        )
}

/// Whatever a walk records is an edge of the graph.
proof fn lemma_walked_is_edge(
    manifest: &Document<String>,
    graph: &DependencyGraph,
    ids: Seq<usize>,
    i: int,
    k: int,
    id: usize,
    dependent: usize,
)
    requires
        graph.wf(),
        resolves_within(graph, ids),
        walked(manifest, graph, ids, i, k, id, dependent),
    ensures
        id < graph.size(),
        dependent < graph.size(),
        graph.dependents_of(id as int).contains(dependent),
{
    let link = PackageLink { from: graph.dependents_of(ids[i] as int)[k], to: ids[i] };
    if id == link.to && dependent == link.from {
        assert(graph.dependents_of(id as int)[k] == dependent);
    } else {
        let chain = choose|chain: Seq<usize>| #[trigger]
            is_transitive_chain(manifest, graph, chain) && chain[0] == link.from && chain.last()
                == id;
        assert(is_transitive(manifest, graph, chain[chain.len() - 1]));
    }
    let at = choose|at: int|
        0 <= at < graph.dependents_of(id as int).len() && graph.dependents_of(id as int)[at]
            == dependent;
    assert(graph.dependents_of(id as int)[at] < graph.size());
}

/// Along a causal path of `ids[i]`, every edge is recorded by the walk from
/// the reverse edge of `ids[i]` that the path starts with.
proof fn lemma_root_path_is_walked(
    manifest: &Document<String>,
    graph: &DependencyGraph,
    ids: Seq<usize>,
    i: int,
    path: Seq<Package>,
    at: int,
) -> (k: int)
    requires
        graph.wf(),
        resolves_within(graph, ids),
        0 <= i < ids.len(),
        is_root_path(manifest, graph, ids[i], path),
        0 <= at < path.len() - 1,
    ensures
        walked(manifest, graph, ids, i, k, path[at].id, path[at + 1].id),
{
    reveal(is_root_path);
    let siblings = graph.dependents_of(ids[i] as int);
    assert(!path[0].declared() && siblings.contains(path[1].id));
    let k = choose|k: int| 0 <= k < siblings.len() && siblings[k] == path[1].id;
    if at > 0 {
        let chain = Seq::new(at as nat, |j: int| path[j + 1].id);
        assert forall|j: int| 0 <= j < chain.len() implies is_transitive(
            manifest,
            graph,
            #[trigger] chain[j],
        ) by {
            assert(!path[j + 1].declared());
            assert(path[j + 1] == package_of(manifest, graph, path[j + 1].id));
        }
        assert forall|j: int| 0 <= j < chain.len() - 1 implies graph.dependents_of(
            (#[trigger] chain[j]) as int,
        ).contains(chain[j + 1]) by {
            assert(!path[j + 1].declared() && graph.dependents_of(path[j + 1].id as int).contains(
                path[j + 2].id,
            ));
        }
        assert(is_transitive_chain(manifest, graph, chain));
        assert(chain[0] == path[1].id && chain.last() == path[at].id);
        assert(expands(manifest, graph, path[1].id, path[at].id));
        assert(!path[at].declared() && graph.dependents_of(path[at].id as int).contains(
            path[at + 1].id,
        ));
    }
    k
}

/// An edge of an adjacency map that holds the walks of `ids` is an edge of
/// the graph, and its dependent carries the span of its declaration.
proof fn lemma_held_is_edge(
    adj_map: &AdjacencyMap,
    manifest: &Document<String>,
    graph: &DependencyGraph,
    ids: Seq<usize>,
    id: usize,
    dependent: Package,
)
    requires
        graph.wf(),
        resolves_within(graph, ids),
        holds_walks(adj_map, manifest, graph, ids, ids.len() as int, 0),
        adj_map.has_edge(id, dependent),
    ensures
        dependent.id < graph.size(),
        dependent == package_of(manifest, graph, dependent.id),
        graph.dependents_of(id as int).contains(dependent.id),
{
    reveal(holds_walks);
    assert(walked_before(manifest, graph, ids, ids.len() as int, 0, id, dependent.id));
    let (a, b) = choose|a: int, b: int| #[trigger]
        walked(manifest, graph, ids, a, b, id, dependent.id) && (a < ids.len() || (a == ids.len()
            && b < 0));
    lemma_walked_is_edge(manifest, graph, ids, a, b, id, dependent.id);
}

/// What a walk of `ids` records is an edge of an adjacency map that holds
/// the walks of `ids`.
proof fn lemma_walked_is_held(
    adj_map: &AdjacencyMap,
    manifest: &Document<String>,
    graph: &DependencyGraph,
    ids: Seq<usize>,
    i: int,
    k: int,
    id: usize,
    dependent: usize,
)
    requires
        holds_walks(adj_map, manifest, graph, ids, ids.len() as int, 0),
        walked(manifest, graph, ids, i, k, id, dependent),
    ensures
        adj_map.has_edge(id, package_of(manifest, graph, dependent)),
{
    reveal(holds_walks);
    assert(walked(manifest, graph, ids, i, k, id, dependent) && (i < ids.len() || (i == ids.len()
        && k < 0)));
    assert(walked_before(manifest, graph, ids, ids.len() as int, 0, id, dependent));
}

/// In an adjacency map that holds the walks of `ids`, a causal path of
/// `ids[i]` is a causal path of it in the graph.
pub(crate) proof fn lemma_held_path_is_root_path(
    adj_map: &AdjacencyMap,
    manifest: &Document<String>,
    graph: &DependencyGraph,
    ids: Seq<usize>,
    i: int,
    path: Seq<Package>,
)
    requires
        graph.wf(),
        resolves_within(graph, ids),
        0 <= i < ids.len(),
        holds_walks(adj_map, manifest, graph, ids, ids.len() as int, 0),
        is_causal_path(adj_map, package_of(manifest, graph, ids[i]), path),
    ensures
        is_root_path(manifest, graph, ids[i], path),
{
    reveal(is_root_path);
    let target = package_of(manifest, graph, ids[i]);
    assert(path.take(1)[0] == seq![target][0]);
    assert(path[0] == target);
    assert forall|j: int| 0 <= j < path.len() - 1 implies !(#[trigger] path[j]).declared()
        && graph.dependents_of(path[j].id as int).contains(path[j + 1].id) && path[j + 1].id
        < graph.size() && path[j + 1] == package_of(manifest, graph, path[j + 1].id) by {
        assert(!path[j].declared() && adj_map.has_edge(path[j].id, path[j + 1]));
        lemma_held_is_edge(adj_map, manifest, graph, ids, path[j].id, path[j + 1]);
    }
    assert forall|j: int| 0 <= j < path.len() implies (#[trigger] path[j]).id < graph.size()
        && path[j] == package_of(manifest, graph, path[j].id) by {
        if j > 0 {
            assert(!path[j - 1].declared());
        }
    }
}

/// In an adjacency map that holds the walks of `ids`, a causal path of
/// `ids[i]` in the graph is a causal path of it.
pub(crate) proof fn lemma_root_path_is_held(
    adj_map: &AdjacencyMap,
    manifest: &Document<String>,
    graph: &DependencyGraph,
    ids: Seq<usize>,
    i: int,
    path: Seq<Package>,
)
    requires
        graph.wf(),
        resolves_within(graph, ids),
        0 <= i < ids.len(),
        holds_walks(adj_map, manifest, graph, ids, ids.len() as int, 0),
        is_root_path(manifest, graph, ids[i], path),
    ensures
        is_causal_path(adj_map, package_of(manifest, graph, ids[i]), path),
{
    reveal(is_root_path);
    let target = package_of(manifest, graph, ids[i]);
    assert(path[0] == target);
    assert(path.take(1) =~= seq![target]);
    assert forall|j: int| 0 <= j < path.len() - 1 implies !(#[trigger] path[j]).declared()
        && adj_map.has_edge(path[j].id, path[j + 1]) by {
        let k = lemma_root_path_is_walked(manifest, graph, ids, i, path, j);
        lemma_walked_is_held(adj_map, manifest, graph, ids, i, k, path[j].id, path[j + 1].id);
        assert(path[j + 1] == package_of(manifest, graph, path[j + 1].id));
    }
}

/// An empty adjacency map holds the walks before the first.
proof fn lemma_no_walk_yet(
    adj_map: &AdjacencyMap,
    manifest: &Document<String>,
    graph: &DependencyGraph,
    ids: Seq<usize>,
)
    requires
        adj_map@ == Map::<usize, Seq<Package>>::empty(),
    ensures
        holds_walks(adj_map, manifest, graph, ids, 0, 0),
{
    reveal(holds_walks);
    assert forall|id: usize, dependent: Package| !adj_map.has_edge(id, dependent) by {
        assert(adj_map.dependents_of(id) =~= Seq::empty());
    }
    assert forall|id: usize, dependent: usize| !adj_map.has_dependent(id, dependent) by {
        assert(adj_map.dependents_of(id) =~= Seq::empty());
    }
}

/// The walks before the `k + 1`-th reverse edge of `ids[i]` are those before
/// the `k`-th and the walk from the `k`-th.
proof fn lemma_walked_step(
    manifest: &Document<String>,
    graph: &DependencyGraph,
    ids: Seq<usize>,
    i: int,
    k: int,
    id: usize,
    dependent: usize,
)
    requires
        0 <= i < ids.len(),
        0 <= k < graph.dependents_of(ids[i] as int).len(),
    ensures
        walked_before(manifest, graph, ids, i, k + 1, id, dependent) <==> walked_before(
            manifest,
            graph,
            ids,
            i,
            k,
            id,
            dependent,
        ) || records(
            manifest,
            graph,
            PackageLink { from: graph.dependents_of(ids[i] as int)[k], to: ids[i] },
            id,
            dependent,
        ),
{
    let link = PackageLink { from: graph.dependents_of(ids[i] as int)[k], to: ids[i] };
    if walked_before(manifest, graph, ids, i, k + 1, id, dependent) {
        let (a, b) = choose|a: int, b: int| #[trigger]
            walked(manifest, graph, ids, a, b, id, dependent) && (a < i || (a == i && b < k + 1));
        if !(a == i && b == k) {
            assert(walked(manifest, graph, ids, a, b, id, dependent) && (a < i || (a == i && b
                < k)));
        }
    }
    if walked_before(manifest, graph, ids, i, k, id, dependent) {
        let (a, b) = choose|a: int, b: int| #[trigger]
            walked(manifest, graph, ids, a, b, id, dependent) && (a < i || (a == i && b < k));
        assert(walked(manifest, graph, ids, a, b, id, dependent) && (a < i || (a == i && b < k
            + 1)));
    }
    if records(manifest, graph, link, id, dependent) {
        assert(walked(manifest, graph, ids, i, k, id, dependent) && (i < i || (i == i && k < k
            + 1)));
    }
}

/// After the walk from the `k`-th reverse edge of `ids[i]`, the adjacency
/// map holds the walks before the `k + 1`-th.
proof fn lemma_holds_next_walk(
    before: &AdjacencyMap,
    after: &AdjacencyMap,
    manifest: &Document<String>,
    graph: &DependencyGraph,
    ids: Seq<usize>,
    i: int,
    k: int,
)
    requires
        0 <= i < ids.len(),
        0 <= k < graph.dependents_of(ids[i] as int).len(),
        holds_walks(before, manifest, graph, ids, i, k),
        forall|id: usize, dependent: Package| #[trigger]
            after.has_edge(id, dependent) <==> before.has_edge(id, dependent) || (records(
                manifest,
                graph,
                PackageLink { from: graph.dependents_of(ids[i] as int)[k], to: ids[i] },
                id,
                dependent.id,
            ) && dependent == package_of(manifest, graph, dependent.id) && !before.has_dependent(
                id,
                dependent.id,
            )),
        forall|id: usize, dependent: usize| #[trigger]
            after.has_dependent(id, dependent) <==> before.has_dependent(id, dependent) || records(
                manifest,
                graph,
                PackageLink { from: graph.dependents_of(ids[i] as int)[k], to: ids[i] },
                id,
                dependent,
            ),
    ensures
        holds_walks(after, manifest, graph, ids, i, k + 1),
{
    reveal(holds_walks);
    assert forall|id: usize, dependent: Package| #[trigger]
        after.has_edge(id, dependent) <==> dependent == package_of(manifest, graph, dependent.id)
            && walked_before(manifest, graph, ids, i, k + 1, id, dependent.id) by {
        lemma_walked_step(manifest, graph, ids, i, k, id, dependent.id);
        assert(before.has_edge(id, dependent) <==> dependent == package_of(
            manifest,
            graph,
            dependent.id,
        ) && walked_before(manifest, graph, ids, i, k, id, dependent.id));
        assert(before.has_dependent(id, dependent.id) <==> walked_before(
            manifest,
            graph,
            ids,
            i,
            k,
            id,
            dependent.id,
        ));
    }
    assert forall|id: usize, dependent: usize| #[trigger]
        after.has_dependent(id, dependent) <==> walked_before(
            manifest,
            graph,
            ids,
            i,
            k + 1,
            id,
            dependent,
        ) by {
        lemma_walked_step(manifest, graph, ids, i, k, id, dependent);
        assert(before.has_dependent(id, dependent) <==> walked_before(
            manifest,
            graph,
            ids,
            i,
            k,
            id,
            dependent,
        ));
    }
}

/// Once every reverse edge of `ids[i]` is walked, the adjacency map holds
/// the walks before the first reverse edge of the next package.
proof fn lemma_holds_next_package(
    adj_map: &AdjacencyMap,
    manifest: &Document<String>,
    graph: &DependencyGraph,
    ids: Seq<usize>,
    i: int,
)
    requires
        0 <= i < ids.len(),
        holds_walks(
            adj_map,
            manifest,
            graph,
            ids,
            i,
            graph.dependents_of(ids[i] as int).len() as int,
        ),
    ensures
        holds_walks(adj_map, manifest, graph, ids, i + 1, 0),
{
    reveal(holds_walks);
    let k = graph.dependents_of(ids[i] as int).len() as int;
    assert forall|id: usize, dependent: usize|
        walked_before(manifest, graph, ids, i + 1, 0, id, dependent) <==> walked_before(
            manifest,
            graph,
            ids,
            i,
            k,
            id,
            dependent,
        ) by {
        if walked_before(manifest, graph, ids, i + 1, 0, id, dependent) {
            let (a, b) = choose|a: int, b: int| #[trigger]
                walked(manifest, graph, ids, a, b, id, dependent) && (a < i + 1 || (a == i + 1 && b
                    < 0));
            assert(walked(manifest, graph, ids, a, b, id, dependent) && (a < i || (a == i && b
                < k)));
        }
        if walked_before(manifest, graph, ids, i, k, id, dependent) {
            let (a, b) = choose|a: int, b: int| #[trigger]
                walked(manifest, graph, ids, a, b, id, dependent) && (a < i || (a == i && b < k));
            assert(walked(manifest, graph, ids, a, b, id, dependent) && (a < i + 1 || (a == i + 1
                && b < 0)));
        }
    }
}

/// The walk from the `k`-th reverse edge of `ids[i]` goes on through `id`.
spec fn walks_through(
    manifest: &Document<String>,
    graph: &DependencyGraph,
    ids: Seq<usize>,
    i: int,
    k: int,
    id: usize,
) -> bool {
    &&& 0 <= i < ids.len()
    &&& 0 <= k < graph.dependents_of(ids[i] as int).len()
    &&& expands(manifest, graph, graph.dependents_of(ids[i] as int)[k], id)
}

/// Before the `k`-th reverse edge of `ids[i]`, every dependent of `id` is
/// recorded: `id` is one of the packages before `ids[i]`, or one of the walks
/// went on through it.
spec fn is_settled(
    manifest: &Document<String>,
    graph: &DependencyGraph,
    ids: Seq<usize>,
    i: int,
    k: int,
    id: usize,
) -> bool {
    ||| exists|a: int| 0 <= a < i && a < ids.len() && #[trigger] ids[a] == id
    ||| exists|a: int, b: int| #[trigger]
        walks_through(manifest, graph, ids, a, b, id) && (a < i || (a == i && b < k))
}

/// Before the `k`-th reverse edge of `ids[i]`, the dependents recorded for
/// `id` are the first `count` that the graph lists.
spec fn holds_prefix(
    adj_map: &AdjacencyMap,
    manifest: &Document<String>,
    graph: &DependencyGraph,
    ids: Seq<usize>,
    i: int,
    k: int,
    id: usize,
    count: int,
) -> bool {
    &&& 0 <= count <= graph.dependents_of(id as int).len()
    &&& adj_map.dependents_of(id) == distinct_prefix(manifest, graph, id, count)
    &&& is_settled(manifest, graph, ids, i, k, id) ==> count == graph.dependents_of(
        id as int,
    ).len()
    &&& 0 <= i < ids.len() && ids[i] == id ==> count >= k
}

spec fn is_ordered_at(
    adj_map: &AdjacencyMap,
    manifest: &Document<String>,
    graph: &DependencyGraph,
    ids: Seq<usize>,
    i: int,
    k: int,
    id: usize,
) -> bool {
    exists|count: int| #[trigger] holds_prefix(adj_map, manifest, graph, ids, i, k, id, count)
}

/// Before the `k`-th reverse edge of `ids[i]`, `adj_map` lists the dependents
/// of every package in the order of the graph.
#[verifier::opaque]
pub(crate) closed spec fn in_graph_order(
    adj_map: &AdjacencyMap,
    manifest: &Document<String>,
    graph: &DependencyGraph,
    ids: Seq<usize>,
    i: int,
    k: int,
) -> bool {
    forall|id: usize| #[trigger] is_ordered_at(adj_map, manifest, graph, ids, i, k, id)
}

/// An empty adjacency map is in the order of the graph.
proof fn lemma_order_of_empty(
    adj_map: &AdjacencyMap,
    manifest: &Document<String>,
    graph: &DependencyGraph,
    ids: Seq<usize>,
)
    requires
        adj_map@ == Map::<usize, Seq<Package>>::empty(),
    ensures
        in_graph_order(adj_map, manifest, graph, ids, 0, 0),
{
    reveal(in_graph_order);
    assert forall|id: usize| #[trigger]
        is_ordered_at(adj_map, manifest, graph, ids, 0, 0, id) by {
        assert(adj_map.dependents_of(id) =~= Seq::empty());
        assert(packages_of(manifest, graph, graph.dependents_of(id as int).take(0))
            =~= Seq::<Package>::empty());
        assert(holds_prefix(adj_map, manifest, graph, ids, 0, 0, id, 0));
    }
}

/// After the walk from the `k`-th reverse edge of `ids[i]`, the adjacency
/// map is still in the order of the graph.
proof fn lemma_order_next_walk(
    before: &AdjacencyMap,
    after: &AdjacencyMap,
    manifest: &Document<String>,
    graph: &DependencyGraph,
    ids: Seq<usize>,
    i: int,
    k: int,
)
    requires
        0 <= i < ids.len(),
        0 <= k < graph.dependents_of(ids[i] as int).len(),
        in_graph_order(before, manifest, graph, ids, i, k),
        forall|id: usize| #[trigger]
            after.dependents_of(id) == with_dependents(
                before.dependents_of(id),
                appended(
                    manifest,
                    graph,
                    PackageLink { from: graph.dependents_of(ids[i] as int)[k], to: ids[i] },
                    id,
                ),
            ),
    ensures
        in_graph_order(after, manifest, graph, ids, i, k + 1),
{
    reveal(in_graph_order);
    let link = PackageLink { from: graph.dependents_of(ids[i] as int)[k], to: ids[i] };
    assert forall|id: usize| #[trigger]
        is_ordered_at(after, manifest, graph, ids, i, k + 1, id) by {
        assert(is_ordered_at(before, manifest, graph, ids, i, k, id));
        let count = choose|count: int| #[trigger]
            holds_prefix(before, manifest, graph, ids, i, k, id, count);
        let dependents = graph.dependents_of(id as int);
        let list = distinct_prefix(manifest, graph, id, count);
        let own = if id == link.to {
            seq![package_of(manifest, graph, link.from)]
        } else {
            Seq::empty()
        };
        let all = if expands(manifest, graph, link.from, id) {
            packages_of(manifest, graph, dependents)
        } else {
            Seq::empty()
        };
        lemma_with_dependents_add(list, own, all);
        // The link itself.
        let middle = if id == link.to && count == k {
            k + 1
        } else {
            count
        };
        assert(with_dependents(list, own) == distinct_prefix(manifest, graph, id, middle)) by {
            assert(with_dependents(list, Seq::<Package>::empty()) == list);
            if id == link.to {
                assert(own.drop_last() =~= Seq::<Package>::empty());
                assert(own.last() == package_of(manifest, graph, dependents[k]));
                lemma_prefix_takes(manifest, graph, id, count, k);
            }
        }
        // The dependents of a package that the walk goes on through.
        let last = if expands(manifest, graph, link.from, id) {
            dependents.len() as int
        } else {
            middle
        };
        assert(with_dependents(distinct_prefix(manifest, graph, id, middle), all)
            == distinct_prefix(manifest, graph, id, last)) by {
            if expands(manifest, graph, link.from, id) {
                assert(dependents.take(dependents.len() as int) =~= dependents);
                lemma_prefix_absorbs(manifest, graph, id, middle, dependents.len() as int);
            }
        }
        assert(is_settled(manifest, graph, ids, i, k + 1, id) ==> last == dependents.len()) by {
            if is_settled(manifest, graph, ids, i, k + 1, id) && !is_settled(
                manifest,
                graph,
                ids,
                i,
                k,
                id,
            ) {
                let (a, b) = choose|a: int, b: int| #[trigger]
                    walks_through(manifest, graph, ids, a, b, id) && (a < i || (a == i && b < k
                        + 1));
                if !(a == i && b == k) {
                    assert(walks_through(manifest, graph, ids, a, b, id) && (a < i || (a == i
                        && b < k)));
                }
            }
        }
        assert(holds_prefix(after, manifest, graph, ids, i, k + 1, id, last));
    }
}

/// Once every reverse edge of `ids[i]` is walked, the adjacency map is in the
/// order of the graph for the next package.
proof fn lemma_order_next_package(
    adj_map: &AdjacencyMap,
    manifest: &Document<String>,
    graph: &DependencyGraph,
    ids: Seq<usize>,
    i: int,
)
    requires
        0 <= i < ids.len(),
        in_graph_order(
            adj_map,
            manifest,
            graph,
            ids,
            i,
            graph.dependents_of(ids[i] as int).len() as int,
        ),
    ensures
        in_graph_order(adj_map, manifest, graph, ids, i + 1, 0),
{
    reveal(in_graph_order);
    let k = graph.dependents_of(ids[i] as int).len() as int;
    assert forall|id: usize| #[trigger]
        is_ordered_at(adj_map, manifest, graph, ids, i + 1, 0, id) by {
        assert(is_ordered_at(adj_map, manifest, graph, ids, i, k, id));
        let count = choose|count: int| #[trigger]
            holds_prefix(adj_map, manifest, graph, ids, i, k, id, count);
        if is_settled(manifest, graph, ids, i + 1, 0, id) && !is_settled(
            manifest,
            graph,
            ids,
            i,
            k,
            id,
        ) {
            if exists|a: int| 0 <= a < i + 1 && a < ids.len() && #[trigger] ids[a] == id {
                let a = choose|a: int| 0 <= a < i + 1 && a < ids.len() && #[trigger] ids[a] == id;
                if a < i {
                    assert(0 <= a < i && a < ids.len() && ids[a] == id);
                }
            } else {
                let (a, b) = choose|a: int, b: int| #[trigger]
                    walks_through(manifest, graph, ids, a, b, id) && (a < i + 1 || (a == i + 1
                        && b < 0));
                assert(walks_through(manifest, graph, ids, a, b, id) && (a < i || (a == i && b
                    < k)));
            }
        }
        assert(holds_prefix(adj_map, manifest, graph, ids, i + 1, 0, id, count));
    }
}

/// When every reverse edge is walked, the dependents of a package of `ids`,
/// and of a package that a walk went on through, are recorded as the graph
/// lists them, each once.
proof fn lemma_order_at_end(
    adj_map: &AdjacencyMap,
    manifest: &Document<String>,
    graph: &DependencyGraph,
    ids: Seq<usize>,
    id: usize,
)
    requires
        in_graph_order(adj_map, manifest, graph, ids, ids.len() as int, 0),
        is_settled(manifest, graph, ids, ids.len() as int, 0, id),
    ensures
        adj_map.dependents_of(id) == distinct_dependents(manifest, graph, id),
{
    reveal(in_graph_order);
    assert(is_ordered_at(adj_map, manifest, graph, ids, ids.len() as int, 0, id));
    lemma_prefix_is_whole(manifest, graph, id);
}

/// The walk from the reverse edge of `ids[i]` that a causal path starts with
/// goes on through every package of the path but the first and the last.
proof fn lemma_root_path_walks_through(
    manifest: &Document<String>,
    graph: &DependencyGraph,
    ids: Seq<usize>,
    i: int,
    path: Seq<Package>,
    at: int,
) -> (k: int)
    requires
        0 <= i < ids.len(),
        is_root_path(manifest, graph, ids[i], path),
        0 < at < path.len() - 1,
    ensures
        walks_through(manifest, graph, ids, i, k, path[at].id),
{
    reveal(is_root_path);
    let siblings = graph.dependents_of(ids[i] as int);
    assert(!path[0].declared() && siblings.contains(path[1].id));
    let k = choose|k: int| 0 <= k < siblings.len() && siblings[k] == path[1].id;
    let chain = Seq::new(at as nat, |j: int| path[j + 1].id);
    assert forall|j: int| 0 <= j < chain.len() implies is_transitive(
        manifest,
        graph,
        #[trigger] chain[j],
    ) by {
        assert(!path[j + 1].declared());
        assert(path[j + 1] == package_of(manifest, graph, path[j + 1].id));
    }
    assert forall|j: int| 0 <= j < chain.len() - 1 implies graph.dependents_of(
        (#[trigger] chain[j]) as int,
    ).contains(chain[j + 1]) by {
        assert(!path[j + 1].declared() && graph.dependents_of(path[j + 1].id as int).contains(
            path[j + 2].id,
        ));
    }
    assert(is_transitive_chain(manifest, graph, chain));
    assert(chain[0] == path[1].id && chain.last() == path[at].id);
    k
}

/// Where the search in an adjacency map that holds the walks of `ids` comes
/// upon one causal path of `ids[i]` before another, the graph lists the
/// dependent that the first one parts with before that of the other.
pub(crate) proof fn lemma_found_in_graph_order(
    adj_map: &AdjacencyMap,
    manifest: &Document<String>,
    graph: &DependencyGraph,
    ids: Seq<usize>,
    i: int,
    first: Seq<Package>,
    second: Seq<Package>,
)
    requires
        0 <= i < ids.len(),
        in_graph_order(adj_map, manifest, graph, ids, ids.len() as int, 0),
        is_root_path(manifest, graph, ids[i], first),
        is_root_path(manifest, graph, ids[i], second),
        found_before(adj_map, first, second),
    ensures
        searched_before(graph, first, second),
{
    let at = choose|at: int| #[trigger] diverge_at(adj_map, first, second, at);
    let id = first[at - 1].id;
    assert(is_settled(manifest, graph, ids, ids.len() as int, 0, id)) by {
        if at == 1 {
            assert(first[0].id == ids[i]) by {
                reveal(is_root_path);
            }
            assert(0 <= i < ids.len() && ids[i] == id);
        } else {
            let k = lemma_root_path_walks_through(manifest, graph, ids, i, first, at - 1);
            assert(walks_through(manifest, graph, ids, i, k, id) && (i < ids.len() || (i
                == ids.len() && k < 0)));
        }
    }
    lemma_order_at_end(adj_map, manifest, graph, ids, id);
    assert(first[at] == package_of(manifest, graph, first[at].id) && second[at] == package_of(
        manifest,
        graph,
        second[at].id,
    )) by {
        reveal(is_root_path);
    }
    lemma_recorded_order_is_graph_order(manifest, graph, id, first[at].id, second[at].id);
    assert(part_at(graph, first, second, at));
}

/// Walks the reverse edges of every package of `ids`.
pub(crate) fn collect_walks(manifest: &Document<String>, graph: &DependencyGraph, ids: &Vec<usize>) -> (adj_map:
    AdjacencyMap)
    requires
        graph.wf(),
        resolves_within(graph, ids@),
    ensures
        holds_walks(&adj_map, manifest, graph, ids@, ids@.len() as int, 0),
        in_graph_order(&adj_map, manifest, graph, ids@, ids@.len() as int, 0),
{
    let mut adj_map = AdjacencyMap::new();
    let mut i: usize = 0;
    proof {
        lemma_no_walk_yet(&adj_map, manifest, graph, ids@);
        lemma_order_of_empty(&adj_map, manifest, graph, ids@);
    }
    while i < ids.len()
        invariant
            i <= ids@.len(),
            graph.wf(),
            resolves_within(graph, ids@),
            holds_walks(&adj_map, manifest, graph, ids@, i as int, 0),
            in_graph_order(&adj_map, manifest, graph, ids@, i as int, 0),
        decreases ids@.len() - i,
    {
        let id = ids[i];
        let dependents = &graph.nodes[id].dependents;
        let mut k: usize = 0;
        while k < dependents.len()
            invariant
                i < ids@.len(),
                id == ids@[i as int],
                k <= dependents@.len(),
                dependents@ == graph.dependents_of(id as int),
                graph.wf(),
                resolves_within(graph, ids@),
                holds_walks(&adj_map, manifest, graph, ids@, i as int, k as int),
                in_graph_order(&adj_map, manifest, graph, ids@, i as int, k as int),
            decreases dependents@.len() - k,
        {
            let link = PackageLink { from: dependents[k], to: id };
            let ghost before = adj_map;
            reverse_bfs(manifest, graph, link, &mut adj_map);
            proof {
                lemma_holds_next_walk(&before, &adj_map, manifest, graph, ids@, i as int, k as int);
                lemma_order_next_walk(&before, &adj_map, manifest, graph, ids@, i as int, k as int);
            }
            k += 1;
        }
        proof {
            lemma_holds_next_package(&adj_map, manifest, graph, ids@, i as int);
            lemma_order_next_package(&adj_map, manifest, graph, ids@, i as int);
        }
        i += 1;
    }
    adj_map
}

} // verus!
