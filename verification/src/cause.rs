//! The investigation of one dependency: which declaration of the manifest
//! pulled it into the graph.

use crate::adjacency::AdjacencyMap;
use crate::graph::DependencyGraph;
use crate::order::{depends_before, depends_first};
use crate::package::Package;
use crate::path::{found_before, is_causal_path, is_simple, shortest_path};
use crate::reach::{package_of, resolve_package};
use crate::walks::{
    collect_walks, holds_walks, in_graph_order, lemma_found_in_graph_order,
    lemma_held_path_is_root_path, lemma_root_path_is_held,
};
use toml_edit::Document;
use vstd::prelude::*;

verus! {

/// `walk` leads from package `target` along direct dependents to the first
/// package that the manifest declares. Each package carries the span of its
/// declaration. A walk may visit a package more than once.
pub open spec fn is_root_walk(
    manifest: &Document<String>,
    graph: &DependencyGraph,
    target: usize,
    walk: Seq<Package>,
) -> bool {
    &&& walk.len() > 0
    &&& walk[0].id == target
    &&& forall|i: int|
        0 <= i < walk.len() ==> (#[trigger] walk[i]).id < graph.size() && walk[i] == package_of(
            manifest,
            graph,
            walk[i].id,
        )
    &&& forall|i: int|
        0 <= i < walk.len() - 1 ==> !(#[trigger] walk[i]).declared() && graph.dependents_of(
            walk[i].id as int,
        ).contains(walk[i + 1].id)
    &&& walk.last().declared()
}

/// `path` is a causal path of package `target` in the graph: it starts at
/// `target`, each package on it is a direct dependent of the one before, none
/// occurs twice, and the manifest declares the last one and no other.
#[verifier::opaque]
pub open spec fn is_root_path(
    manifest: &Document<String>,
    graph: &DependencyGraph,
    target: usize,
    path: Seq<Package>,
) -> bool {
    is_root_walk(manifest, graph, target, path) && is_simple(path)
}

/// `path` is a causal path of `target`, and no causal path of `target` is
/// shorter.
pub open spec fn is_shortest_root_path(
    manifest: &Document<String>,
    graph: &DependencyGraph,
    target: usize,
    path: Seq<Package>,
) -> bool {
    &&& is_root_path(manifest, graph, target, path)
    &&& forall|other: Seq<Package>| #[trigger]
        is_root_path(manifest, graph, target, other) ==> path.len() <= other.len()
}

/// The two paths agree up to position `at`, where `first` goes on with a
/// package that the graph lists as a direct dependent before the one that
/// `second` goes on with.
pub open spec fn part_at(
    graph: &DependencyGraph,
    first: Seq<Package>,
    second: Seq<Package>,
    at: int,
) -> bool {
    &&& 0 < at < first.len()
    &&& at < second.len()
    &&& first.take(at) == second.take(at)
    &&& depends_before(graph, first[at - 1].id, first[at].id, second[at].id)
}

/// The search comes upon `first` before `second`: where the two paths part,
/// `first` takes the dependent that the graph lists earlier.
pub open spec fn searched_before(
    graph: &DependencyGraph,
    first: Seq<Package>,
    second: Seq<Package>,
) -> bool {
    exists|at: int| #[trigger] part_at(graph, first, second, at)
}

/// `path` is the causal path that is chosen for `target`: a shortest one,
/// and of the shortest ones the one that the search comes upon first.
pub open spec fn is_chosen_root_path(
    manifest: &Document<String>,
    graph: &DependencyGraph,
    target: usize,
    path: Seq<Package>,
) -> bool {
    &&& is_shortest_root_path(manifest, graph, target, path)
    &&& forall|other: Seq<Package>| #[trigger]
        is_root_path(manifest, graph, target, other) && other.len() == path.len() && other
            != path ==> searched_before(graph, path, other)
}

/// Of two paths, the search comes upon at most one before the other.
pub proof fn lemma_searched_one_way(
    graph: &DependencyGraph,
    first: Seq<Package>,
    second: Seq<Package>,
)
    requires
        searched_before(graph, first, second),
    ensures
        !searched_before(graph, second, first),
{
    if searched_before(graph, second, first) {
        lemma_searched_both_ways(graph, first, second);
    }
}

proof fn lemma_searched_both_ways(graph: &DependencyGraph, first: Seq<Package>, second: Seq<Package>)
    requires
        searched_before(graph, first, second),
        searched_before(graph, second, first),
    ensures
        first == second,
{
    let at = choose|at: int| #[trigger] part_at(graph, first, second, at);
    let back = choose|back: int| #[trigger] part_at(graph, second, first, back);
    let id = first[at - 1].id;
    let i = choose|i: int| #[trigger]
        depends_first(graph, id, i, first[at].id, second[at].id);
    assert(graph.dependents_of(id as int)[i] != second[at].id);
    if at < back {
        assert(second.take(back)[at] == first.take(back)[at]);
    } else if back < at {
        let other = choose|j: int| #[trigger]
            depends_first(
                graph,
                second[back - 1].id,
                j,
                second[back].id,
                first[back].id,
            );
        assert(graph.dependents_of(second[back - 1].id as int)[other] != first[back].id);
        assert(first.take(at)[back] == second.take(at)[back]);
    } else {
        assert(first.take(at)[at - 1] == second.take(at)[at - 1]);
        let j = choose|j: int| #[trigger]
            depends_first(graph, id, j, second[at].id, first[at].id);
        if i <= j {
            assert(graph.dependents_of(id as int)[i] != first[at].id);
        } else {
            assert(graph.dependents_of(id as int)[j] != second[at].id);
        }
    }
}

/// The causal path that is chosen for a package is the only one.
pub proof fn lemma_chosen_is_unique(
    manifest: &Document<String>,
    graph: &DependencyGraph,
    target: usize,
    first: Seq<Package>,
    second: Seq<Package>,
)
    requires
        is_chosen_root_path(manifest, graph, target, first),
        is_chosen_root_path(manifest, graph, target, second),
    ensures
        first == second,
{
    if first != second {
        lemma_searched_one_way(graph, first, second);
    }
}

/// A walk to a declaration holds a causal path that is no longer: going
/// round in a circle never shortens the way.
pub proof fn lemma_walk_holds_root_path(
    manifest: &Document<String>,
    graph: &DependencyGraph,
    target: usize,
    walk: Seq<Package>,
) -> (path: Seq<Package>)
    requires
        is_root_walk(manifest, graph, target, walk),
    ensures
        is_root_path(manifest, graph, target, path),
        path.len() <= walk.len(),
    decreases walk.len(),
{
    reveal(is_root_path);
    if is_simple(walk) {
        walk
    } else {
        let (i, j) = choose|i: int, j: int|
            0 <= i < j < walk.len() && (#[trigger] walk[i]).id == (#[trigger] walk[j]).id;
        let last = walk.len() - 1;
        assert(walk[i] == walk[j]);
        assert(!walk[i].declared());
        assert(j < last);
        let shorter = walk.take(i) + walk.skip(j);
        assert forall|k: int| 0 <= k < shorter.len() implies (#[trigger] shorter[k]).id
            < graph.size() && shorter[k] == package_of(manifest, graph, shorter[k].id) by {
            if k < i {
                assert(shorter[k] == walk[k]);
            } else {
                assert(shorter[k] == walk[j + k - i]);
            }
        }
        assert forall|k: int| 0 <= k < shorter.len() - 1 implies !(
        #[trigger] shorter[k]).declared() && graph.dependents_of(shorter[k].id as int).contains(
            shorter[k + 1].id,
        ) by {
            if k < i - 1 {
                assert(shorter[k] == walk[k] && shorter[k + 1] == walk[k + 1]);
            } else if k == i - 1 {
                assert(shorter[k] == walk[i - 1] && shorter[k + 1] == walk[j]);
                assert(!walk[i - 1].declared() && graph.dependents_of(
                    walk[i - 1].id as int,
                ).contains(walk[i].id));
            } else {
                assert(shorter[k] == walk[j + k - i] && shorter[k + 1] == walk[j + k - i + 1]);
                assert(!walk[j + k - i].declared() && graph.dependents_of(
                    walk[j + k - i].id as int,
                ).contains(walk[j + k - i + 1].id));
            }
        }
        assert(shorter[0].id == target) by {
            if i > 0 {
                assert(shorter[0] == walk[0]);
            } else {
                assert(shorter[0] == walk[j]);
            }
        }
        assert(shorter.last() == walk[last]);
        lemma_walk_holds_root_path(manifest, graph, target, shorter)
    }
}

/// A shortest causal path is no longer than any walk from the same package to
/// a declaration.
pub proof fn lemma_shortest_among_walks(
    manifest: &Document<String>,
    graph: &DependencyGraph,
    target: usize,
    path: Seq<Package>,
    walk: Seq<Package>,
)
    requires
        is_shortest_root_path(manifest, graph, target, path),
        is_root_walk(manifest, graph, target, walk),
    ensures
        path.len() <= walk.len(),
{
    let simple = lemma_walk_holds_root_path(manifest, graph, target, walk);
}

/// The package that stands for a dependency in the search: the first of the
/// packages it resolves to that has a dependent.
pub open spec fn investigation_target(graph: &DependencyGraph, ids: Seq<usize>) -> Option<usize>
    decreases ids.len(),
{
    if ids.len() == 0 {
        None
    } else if graph.dependents_of(ids[0] as int).len() > 0 {
        Some(ids[0])
    } else {
        investigation_target(graph, ids.drop_first())
    }
}

/// The dependency that resolves to `ids` can be traced to the manifest.
pub open spec fn is_traceable(
    manifest: &Document<String>,
    graph: &DependencyGraph,
    ids: Seq<usize>,
) -> bool {
    investigation_target(graph, ids) matches Some(target) && exists|path: Seq<Package>| #[trigger]
        is_root_path(manifest, graph, target, path)
}

/// `path` explains the dependency that resolves to `ids`: it is the causal
/// path that is chosen for the package that stands for the dependency.
pub open spec fn explains(
    manifest: &Document<String>,
    graph: &DependencyGraph,
    ids: Seq<usize>,
    path: Seq<Package>,
) -> bool {
    investigation_target(graph, ids) matches Some(target) && is_chosen_root_path(
        manifest,
        graph,
        target,
        path,
    )
}

/// A dependency has at most one explanation.
pub proof fn lemma_explanation_is_unique(
    manifest: &Document<String>,
    graph: &DependencyGraph,
    ids: Seq<usize>,
    first: Seq<Package>,
    second: Seq<Package>,
)
    requires
        explains(manifest, graph, ids, first),
        explains(manifest, graph, ids, second),
    ensures
        first == second,
{
    lemma_chosen_is_unique(manifest, graph, investigation_target(graph, ids)->0, first, second);
}

/// Every package of `ids` is in the graph.
pub open spec fn resolves_within(graph: &DependencyGraph, ids: Seq<usize>) -> bool {
    forall|i: int| 0 <= i < ids.len() ==> (#[trigger] ids[i]) < graph.size()
}

/// The position of the first package of `ids` that has a dependent.
fn first_with_dependents(graph: &DependencyGraph, ids: &Vec<usize>) -> (found: Option<usize>)
    requires
        resolves_within(graph, ids@),
    ensures
        found matches Some(i) ==> i < ids@.len() && investigation_target(graph, ids@) == Some(
            ids@[i as int],
        ),
        found is None ==> investigation_target(graph, ids@) is None,
{
    let mut i: usize = 0;
    assert(ids@.skip(0) =~= ids@);
    while i < ids.len()
        invariant
            i <= ids@.len(),
            resolves_within(graph, ids@),
            investigation_target(graph, ids@) == investigation_target(graph, ids@.skip(i as int)),
        decreases ids@.len() - i,
    {
        assert(ids@.skip(i as int)[0] == ids@[i as int]);
        assert(ids@.skip(i as int).drop_first() =~= ids@.skip(i + 1));
        if graph.nodes[ids[i]].dependents.len() > 0 {
            return Some(i);
        }
        i += 1;
    }
    assert(ids@.skip(i as int).len() == 0);
    None
}

/// What the search in an adjacency map that holds the walks of `ids` finds
/// for `ids[i]` is what the graph holds for it.
proof fn lemma_search_is_exact(
    adj_map: &AdjacencyMap,
    manifest: &Document<String>,
    graph: &DependencyGraph,
    ids: Seq<usize>,
    i: int,
    found: Option<Seq<Package>>,
)
    requires
        graph.wf(),
        resolves_within(graph, ids),
        0 <= i < ids.len(),
        holds_walks(adj_map, manifest, graph, ids, ids.len() as int, 0),
        in_graph_order(adj_map, manifest, graph, ids, ids.len() as int, 0),
        found matches Some(path) ==> is_causal_path(
            adj_map,
            package_of(manifest, graph, ids[i]),
            path,
        ),
        found matches Some(path) ==> forall|other: Seq<Package>| #[trigger]
            is_causal_path(adj_map, package_of(manifest, graph, ids[i]), other) ==> path.len()
                <= other.len(),
        found matches Some(path) ==> forall|other: Seq<Package>| #[trigger]
            is_causal_path(adj_map, package_of(manifest, graph, ids[i]), other) && other.len()
                == path.len() && other != path ==> found_before(adj_map, path, other),
        found is None ==> forall|other: Seq<Package>|
            !is_causal_path(adj_map, package_of(manifest, graph, ids[i]), other),
    ensures
        found matches Some(path) ==> is_chosen_root_path(manifest, graph, ids[i], path),
        found is None ==> forall|other: Seq<Package>|
            !#[trigger] is_root_path(manifest, graph, ids[i], other),
{
    if found is Some {
        let path = found->0;
        lemma_held_path_is_root_path(adj_map, manifest, graph, ids, i, path);
        assert forall|other: Seq<Package>| #[trigger]
            is_root_path(manifest, graph, ids[i], other) implies path.len() <= other.len() by {
            lemma_root_path_is_held(adj_map, manifest, graph, ids, i, other);
        }
        assert forall|other: Seq<Package>| #[trigger]
            is_root_path(manifest, graph, ids[i], other) && other.len() == path.len() && other
                != path implies searched_before(graph, path, other) by {
            lemma_root_path_is_held(adj_map, manifest, graph, ids, i, other);
            lemma_found_in_graph_order(adj_map, manifest, graph, ids, i, path, other);
        }
    } else {
        assert forall|other: Seq<Package>|
            !#[trigger] is_root_path(manifest, graph, ids[i], other) by {
            if is_root_path(manifest, graph, ids[i], other) {
                lemma_root_path_is_held(adj_map, manifest, graph, ids, i, other);
            }
        }
    }
}

/// Searches an adjacency map that holds the walks of `ids` for a shortest
/// causal path of `ids[at]`.
fn search(
    adj_map: &AdjacencyMap,
    manifest: &Document<String>,
    graph: &DependencyGraph,
    ids: &Vec<usize>,
    at: usize,
) -> (found: Option<Vec<Package>>)
    requires
        graph.wf(),
        resolves_within(graph, ids@),
        at < ids@.len(),
        holds_walks(adj_map, manifest, graph, ids@, ids@.len() as int, 0),
        in_graph_order(adj_map, manifest, graph, ids@, ids@.len() as int, 0),
    ensures
        found matches Some(path) ==> is_chosen_root_path(
            manifest,
            graph,
            ids@[at as int],
            path@,
        ),
        found is None ==> forall|other: Seq<Package>|
            !#[trigger] is_root_path(manifest, graph, ids@[at as int], other),
{
    let target = resolve_package(manifest, graph, ids[at]);
    let found = shortest_path(target, adj_map);
    proof {
        let outcome = if found is Some {
            Some(found->0@)
        } else {
            None
        };
        lemma_search_is_exact(adj_map, manifest, graph, ids@, at as int, outcome);
    }
    found
}

/// A search that is exact for the package that stands for a dependency
/// explains the dependency, or shows that it cannot be traced.
proof fn lemma_traced(
    manifest: &Document<String>,
    graph: &DependencyGraph,
    ids: Seq<usize>,
    target: usize,
    found: Option<Vec<Package>>,
)
    requires
        investigation_target(graph, ids) == Some(target),
        found matches Some(path) ==> is_chosen_root_path(manifest, graph, target, path@),
        found is None ==> forall|other: Seq<Package>|
            !#[trigger] is_root_path(manifest, graph, target, other),
    ensures
        found matches Some(path) ==> explains(manifest, graph, ids, path@),
        found is None <==> !is_traceable(manifest, graph, ids),
{
    if found is Some {
        assert(is_root_path(manifest, graph, target, found->0@));
    }
}

/// Explains a dependency that resolves to the packages `ids`.
///
/// The reverse edges of every one of the packages are walked, each walk up to
/// the first declarations of the manifest. The first of the packages that has
/// a dependent then stands for the dependency, and the result is the causal
/// path that is chosen for it: a shortest path from that package to a
/// declaration, and among the shortest ones the one that goes, where they
/// part, with the dependent that the graph lists first. `None` when none of
/// the packages has a dependent, or no chain of dependents leads to a
/// declaration.
pub fn investigate(manifest: &Document<String>, graph: &DependencyGraph, ids: &Vec<usize>) -> (found:
    Option<Vec<Package>>)
    requires
        graph.wf(),
        resolves_within(graph, ids@),
    ensures
        found matches Some(path) ==> explains(manifest, graph, ids@, path@),
        found is None <==> !is_traceable(manifest, graph, ids@),
{
    let adj_map = collect_walks(manifest, graph, ids);
    match first_with_dependents(graph, ids) {
        Some(at) => {
            let found = search(&adj_map, manifest, graph, ids, at);
            proof {
                lemma_traced(manifest, graph, ids@, ids@[at as int], found);
            }
            found
        },
        None => None,
    }
}

} // verus!
