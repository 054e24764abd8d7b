//! The order in which the graph lists the direct dependents of a package,
//! and what it makes of the order in which a walk records them.

use crate::adjacency::{lists_id, with_dependent, with_dependents};
use crate::graph::DependencyGraph;
use crate::package::Package;
use crate::path::{listed_before, occurs_before};
use crate::reach::{package_of, packages_of};
use toml_edit::Document;
use vstd::prelude::*;

verus! {

/// The first `count` direct dependents of package `id`, each once, in the
/// order in which the graph first lists them.
pub open spec fn distinct_prefix(
    manifest: &Document<String>,
    graph: &DependencyGraph,
    id: usize,
    count: int,
) -> Seq<Package> {
    with_dependents(
        Seq::empty(),
        packages_of(manifest, graph, graph.dependents_of(id as int).take(count)),
    )
}

/// The direct dependents of package `id`, each once, in the order in which
/// the graph first lists them.
pub open spec fn distinct_dependents(
    manifest: &Document<String>,
    graph: &DependencyGraph,
    id: usize,
) -> Seq<Package> {
    with_dependents(Seq::empty(), packages_of(manifest, graph, graph.dependents_of(id as int)))
}

/// `first` is at position `i` among the direct dependents of package `id`,
/// and `second` is at no position up to `i`.
pub open spec fn depends_first(
    graph: &DependencyGraph,
    id: usize,
    i: int,
    first: usize,
    second: usize,
) -> bool {
    &&& 0 <= i < graph.dependents_of(id as int).len()
    &&& graph.dependents_of(id as int)[i] == first
    &&& forall|j: int| 0 <= j <= i ==> (#[trigger] graph.dependents_of(id as int)[j]) != second
}

/// The graph lists `first` as a direct dependent of package `id` before it
/// lists `second` as one, if it does at all.
pub open spec fn depends_before(graph: &DependencyGraph, id: usize, first: usize, second: usize) -> bool {
    exists|i: int| #[trigger] depends_first(graph, id, i, first, second)
}

/// One more dependent, one more step of the prefix.
proof fn lemma_prefix_step(
    manifest: &Document<String>,
    graph: &DependencyGraph,
    id: usize,
    count: int,
)
    requires
        0 <= count < graph.dependents_of(id as int).len(),
    ensures
        distinct_prefix(manifest, graph, id, count + 1) == with_dependent(
            distinct_prefix(manifest, graph, id, count),
            package_of(manifest, graph, graph.dependents_of(id as int)[count]),
        ),
{
    let dependents = graph.dependents_of(id as int);
    let more = packages_of(manifest, graph, dependents.take(count + 1));
    assert(more.drop_last() =~= packages_of(manifest, graph, dependents.take(count)));
    assert(more.last() == package_of(manifest, graph, dependents[count]));
}

/// The whole list is the prefix of full length.
pub proof fn lemma_prefix_is_whole(manifest: &Document<String>, graph: &DependencyGraph, id: usize)
    ensures
        distinct_prefix(manifest, graph, id, graph.dependents_of(id as int).len() as int)
            == distinct_dependents(manifest, graph, id),
{
    let dependents = graph.dependents_of(id as int);
    assert(dependents.take(dependents.len() as int) =~= dependents);
}

/// A package is in the prefix exactly when the graph lists it among the
/// first `count` dependents.
proof fn lemma_prefix_lists(
    manifest: &Document<String>,
    graph: &DependencyGraph,
    id: usize,
    count: int,
    dependent: usize,
)
    requires
        0 <= count <= graph.dependents_of(id as int).len(),
    ensures
        lists_id(distinct_prefix(manifest, graph, id, count), dependent) <==> exists|j: int|
            0 <= j < count && #[trigger] graph.dependents_of(id as int)[j] == dependent,
        forall|k: int|
            0 <= k < distinct_prefix(manifest, graph, id, count).len() ==> (
            #[trigger] distinct_prefix(manifest, graph, id, count)[k]) == package_of(
                manifest,
                graph,
                distinct_prefix(manifest, graph, id, count)[k].id,
            ),
    decreases count,
{
    let dependents = graph.dependents_of(id as int);
    if count == 0 {
        assert(packages_of(manifest, graph, dependents.take(0)) =~= Seq::<Package>::empty());
    } else {
        let before = distinct_prefix(manifest, graph, id, count - 1);
        let after = distinct_prefix(manifest, graph, id, count);
        let last = package_of(manifest, graph, dependents[count - 1]);
        lemma_prefix_lists(manifest, graph, id, count - 1, dependent);
        lemma_prefix_lists(manifest, graph, id, count - 1, last.id);
        lemma_prefix_step(manifest, graph, id, count - 1);
        if lists_id(before, dependent) {
            let k = choose|k: int| 0 <= k < before.len() && (#[trigger] before[k]).id == dependent;
            assert(after[k].id == dependent);
            let j = choose|j: int| 0 <= j < count - 1 && #[trigger] dependents[j] == dependent;
            assert(0 <= j < count && dependents[j] == dependent);
        }
        if lists_id(after, dependent) && !lists_id(before, dependent) {
            let k = choose|k: int| 0 <= k < after.len() && (#[trigger] after[k]).id == dependent;
            if k < before.len() {
                assert(before[k].id == dependent);
            }
            assert(dependents[count - 1] == dependent);
        }
        if exists|j: int| 0 <= j < count && #[trigger] dependents[j] == dependent {
            let j = choose|j: int| 0 <= j < count && #[trigger] dependents[j] == dependent;
            if j < count - 1 {
                assert(lists_id(before, dependent));
            } else if !lists_id(before, last.id) {
                assert(after[before.len() as int].id == dependent);
            } else {
                assert(lists_id(before, dependent));
            }
        }
        assert forall|k: int| 0 <= k < after.len() implies (#[trigger] after[k]) == package_of(
            manifest,
            graph,
            after[k].id,
        ) by {
            if k < before.len() {
                assert(after[k] == before[k]);
            }
        }
    }
}

/// Appending a dependent that comes no later than right after the prefix
/// takes the prefix one step on, or leaves it as it is.
pub proof fn lemma_prefix_takes(
    manifest: &Document<String>,
    graph: &DependencyGraph,
    id: usize,
    count: int,
    at: int,
)
    requires
        0 <= at < graph.dependents_of(id as int).len(),
        at <= count <= graph.dependents_of(id as int).len(),
    ensures
        with_dependent(
            distinct_prefix(manifest, graph, id, count),
            package_of(manifest, graph, graph.dependents_of(id as int)[at]),
        ) == distinct_prefix(
            manifest,
            graph,
            id,
            if count == at {
                at + 1
            } else {
                count
            },
        ),
{
    if count == at {
        lemma_prefix_step(manifest, graph, id, at);
    } else {
        lemma_prefix_lists(manifest, graph, id, count, graph.dependents_of(id as int)[at]);
    }
}

/// Appending the first `more` dependents to a prefix gives the longer of the
/// two prefixes.
pub proof fn lemma_prefix_absorbs(
    manifest: &Document<String>,
    graph: &DependencyGraph,
    id: usize,
    count: int,
    more: int,
)
    requires
        0 <= count <= graph.dependents_of(id as int).len(),
        0 <= more <= graph.dependents_of(id as int).len(),
    ensures
        with_dependents(
            distinct_prefix(manifest, graph, id, count),
            packages_of(manifest, graph, graph.dependents_of(id as int).take(more)),
        ) == distinct_prefix(
            manifest,
            graph,
            id,
            if count <= more {
                more
            } else {
                count
            },
        ),
    decreases more,
{
    let dependents = graph.dependents_of(id as int);
    let list = distinct_prefix(manifest, graph, id, count);
    if more == 0 {
        assert(packages_of(manifest, graph, dependents.take(0)) =~= Seq::<Package>::empty());
    } else {
        let appended = packages_of(manifest, graph, dependents.take(more));
        let last = package_of(manifest, graph, dependents[more - 1]);
        assert(appended.drop_last() =~= packages_of(manifest, graph, dependents.take(more - 1)));
        assert(appended.last() == last);
        lemma_prefix_absorbs(manifest, graph, id, count, more - 1);
        if more - 1 < count {
            lemma_prefix_lists(manifest, graph, id, count, last.id);
            assert(dependents[more - 1] == last.id);
        } else {
            lemma_prefix_step(manifest, graph, id, more - 1);
        }
    }
}

/// What is listed earlier in the prefix is listed earlier by the graph.
proof fn lemma_prefix_keeps_order(
    manifest: &Document<String>,
    graph: &DependencyGraph,
    id: usize,
    count: int,
    first: usize,
    second: usize,
)
    requires
        0 <= count <= graph.dependents_of(id as int).len(),
        listed_before(
            distinct_prefix(manifest, graph, id, count),
            package_of(manifest, graph, first),
            package_of(manifest, graph, second),
        ),
    ensures
        depends_before(graph, id, first, second),
    decreases count,
{
    let dependents = graph.dependents_of(id as int);
    let one = package_of(manifest, graph, first);
    let other = package_of(manifest, graph, second);
    if count == 0 {
        assert(packages_of(manifest, graph, dependents.take(0)) =~= Seq::<Package>::empty());
        let i = choose|i: int| #[trigger]
            occurs_before(distinct_prefix(manifest, graph, id, 0), i, one, other);
    } else {
        let before = distinct_prefix(manifest, graph, id, count - 1);
        let after = distinct_prefix(manifest, graph, id, count);
        let last = package_of(manifest, graph, dependents[count - 1]);
        lemma_prefix_step(manifest, graph, id, count - 1);
        let i = choose|i: int| #[trigger] occurs_before(after, i, one, other);
        if i < before.len() {
            assert forall|j: int| 0 <= j <= i implies (#[trigger] before[j]) != other by {
                assert(after[j] == before[j]);
            }
            assert(before[i] == after[i]);
            assert(occurs_before(before, i, one, other));
            lemma_prefix_keeps_order(manifest, graph, id, count - 1, first, second);
        } else {
            assert(after == before.push(last));
            assert(one == last);
            lemma_prefix_lists(manifest, graph, id, count - 1, second);
            assert(!lists_id(before, second)) by {
                if lists_id(before, second) {
                    let k = choose|k: int|
                        0 <= k < before.len() && (#[trigger] before[k]).id == second;
                    assert(before[k] == package_of(manifest, graph, before[k].id));
                    assert(after[k] == before[k]);
                    assert(after[k] != other);
                }
            }
            assert(after[i] != other);
            assert forall|j: int| 0 <= j <= count - 1 implies (#[trigger] dependents[j])
                != second by {
                if j < count - 1 {
                    if dependents[j] == second {
                        assert(0 <= j < count - 1 && dependents[j] == second);
                    }
                }
            }
            assert(depends_first(graph, id, count - 1, first, second));
        }
    }
}

/// What a walk lists earlier among the dependents of a package is listed
/// earlier by the graph.
pub proof fn lemma_recorded_order_is_graph_order(
    manifest: &Document<String>,
    graph: &DependencyGraph,
    id: usize,
    first: usize,
    second: usize,
)
    requires
        listed_before(
            distinct_dependents(manifest, graph, id),
            package_of(manifest, graph, first),
            package_of(manifest, graph, second),
        ),
    ensures
        depends_before(graph, id, first, second),
{
    lemma_prefix_is_whole(manifest, graph, id);
    lemma_prefix_keeps_order(
        manifest,
        graph,
        id,
        graph.dependents_of(id as int).len() as int,
        first,
        second,
    );
}

} // verus!
