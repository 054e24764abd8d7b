//! The shortest chain of dependents from a conflicting package to an entry of
//! the manifest.

use crate::adjacency::AdjacencyMap;
use crate::package::Package;
use vstd::prelude::*;

verus! {

/// Every package of `trail` but the last is absent from the manifest and has
/// the next one recorded as a direct dependent.
pub open spec fn is_open_trail(adj_map: &AdjacencyMap, trail: Seq<Package>) -> bool {
    forall|i: int|
        0 <= i < trail.len() - 1 ==> !(#[trigger] trail[i]).declared() && adj_map.has_edge(
            trail[i].id,
            trail[i + 1],
        )
}

/// No package occurs twice in `trail`.
pub open spec fn is_simple(trail: Seq<Package>) -> bool {
    forall|i: int, j: int|
        0 <= i < j < trail.len() ==> (#[trigger] trail[i]).id != (#[trigger] trail[j]).id
}

/// `path` begins with `prefix`, follows recorded edges through packages that
/// the manifest does not declare, visits no package twice, and ends at the
/// first package that the manifest declares.
pub open spec fn completes(adj_map: &AdjacencyMap, prefix: Seq<Package>, path: Seq<Package>) -> bool {
    &&& 0 < prefix.len() <= path.len()
    &&& path.take(prefix.len() as int) == prefix
    &&& is_open_trail(adj_map, path)
    &&& is_simple(path)
    &&& path.last().declared()
}

/// `path` is a causal path of `target`: it starts at `target`, each package
/// on it is a direct dependent of the one before, none occurs twice, and only
/// the last one is declared in the manifest.
pub open spec fn is_causal_path(adj_map: &AdjacencyMap, target: Package, path: Seq<Package>) -> bool {
    completes(adj_map, seq![target], path)
}

/// One of `results` from position `from` on is `path`.
pub open spec fn lists(results: Seq<Vec<Package>>, from: int, path: Seq<Package>) -> bool {
    exists|k: int| from <= k < results.len() && (#[trigger] results[k])@ == path
}

/// One of `results` from position `from` up to, not including, position `to`
/// is `path`.
pub open spec fn lists_within(
    results: Seq<Vec<Package>>,
    from: int,
    to: int,
    path: Seq<Package>,
) -> bool {
    exists|k: int| from <= k < to && k < results.len() && (#[trigger] results[k])@ == path
}

/// `first` occurs in `list`, and `second` does not occur before it or in its
/// place.
pub open spec fn listed_before(list: Seq<Package>, first: Package, second: Package) -> bool {
    exists|i: int| #[trigger] occurs_before(list, i, first, second)
}

/// `first` is at position `i` of `list`, and `second` is at no position up to
/// `i`.
pub open spec fn occurs_before(list: Seq<Package>, i: int, first: Package, second: Package) -> bool {
    &&& 0 <= i < list.len()
    &&& list[i] == first
    &&& forall|j: int| 0 <= j <= i ==> (#[trigger] list[j]) != second
}

/// The two paths agree up to position `at`, where `first` goes on with a
/// dependent that is recorded before the one that `second` goes on with.
pub open spec fn diverge_at(
    adj_map: &AdjacencyMap,
    first: Seq<Package>,
    second: Seq<Package>,
    at: int,
) -> bool {
    &&& 0 < at < first.len()
    &&& at < second.len()
    &&& first.take(at) == second.take(at)
    &&& listed_before(adj_map.dependents_of(first[at - 1].id), first[at], second[at])
}

/// The depth-first search comes upon `first` before it comes upon `second`:
/// where the two paths part, `first` takes the dependent that is recorded
/// earlier.
pub open spec fn found_before(
    adj_map: &AdjacencyMap,
    first: Seq<Package>,
    second: Seq<Package>,
) -> bool {
    exists|at: int| #[trigger] diverge_at(adj_map, first, second, at)
}

/// The first position at which `item` occurs in `list`.
proof fn lemma_first_occurrence(list: Seq<Package>, item: Package, at: int) -> (first: int)
    requires
        0 <= at < list.len(),
        list[at] == item,
    ensures
        0 <= first <= at,
        list[first] == item,
        forall|j: int| 0 <= j < first ==> (#[trigger] list[j]) != item,
    decreases at,
{
    if exists|j: int| 0 <= j < at && (#[trigger] list[j]) == item {
        let j = choose|j: int| 0 <= j < at && (#[trigger] list[j]) == item;
        lemma_first_occurrence(list, item, j)
    } else {
        at
    }
}

/// Of two different packages of a list, one is listed before the other.
proof fn lemma_one_is_listed_first(list: Seq<Package>, first: Package, second: Package)
    requires
        list.contains(first),
        list.contains(second),
        first != second,
    ensures
        listed_before(list, first, second) || listed_before(list, second, first),
{
    let i = choose|i: int| 0 <= i < list.len() && list[i] == first;
    let j = choose|j: int| 0 <= j < list.len() && list[j] == second;
    let i = lemma_first_occurrence(list, first, i);
    let j = lemma_first_occurrence(list, second, j);
    if i < j {
        assert(occurs_before(list, i, first, second));
    } else {
        assert(occurs_before(list, j, second, first));
    }
}

/// The first position at which two sequences differ, given that they differ
/// at `at`.
proof fn lemma_first_difference(first: Seq<Package>, second: Seq<Package>, at: int) -> (least: int)
    requires
        0 <= at < first.len(),
        at < second.len(),
        first[at] != second[at],
    ensures
        0 <= least <= at,
        first[least] != second[least],
        first.take(least) == second.take(least),
    decreases at,
{
    if exists|j: int| 0 <= j < at && #[trigger] first[j] != #[trigger] second[j] {
        let j = choose|j: int| 0 <= j < at && #[trigger] first[j] != #[trigger] second[j];
        lemma_first_difference(first, second, j)
    } else {
        assert(first.take(at) =~= second.take(at));
        at
    }
}

/// Of two different paths that complete the same prefix, the search comes
/// upon one before the other.
pub proof fn lemma_one_is_found_first(
    adj_map: &AdjacencyMap,
    prefix: Seq<Package>,
    first: Seq<Package>,
    second: Seq<Package>,
)
    requires
        completes(adj_map, prefix, first),
        completes(adj_map, prefix, second),
        first != second,
    ensures
        found_before(adj_map, first, second) || found_before(adj_map, second, first),
{
    let shorter = if first.len() <= second.len() {
        first.len() as int
    } else {
        second.len() as int
    };
    if first.take(shorter) =~= second.take(shorter) {
        // One path is the beginning of the other: its last package is
        // declared, and is not the last package of the other.
        if first.len() < second.len() {
            assert(first.take(shorter) =~= first);
            assert(second.take(shorter)[shorter - 1] == second[shorter - 1]);
            assert(first.last() == second[shorter - 1]);
            assert(!second[shorter - 1].declared());
        } else if second.len() < first.len() {
            assert(second.take(shorter) =~= second);
            assert(first.take(shorter)[shorter - 1] == first[shorter - 1]);
            assert(second.last() == first[shorter - 1]);
            assert(!first[shorter - 1].declared());
        } else {
            assert(first.take(shorter) =~= first);
            assert(second.take(shorter) =~= second);
        }
    } else {
        let at = choose|at: int|
            0 <= at < shorter && first.take(shorter)[at] != second.take(shorter)[at];
        let at = lemma_first_difference(first, second, at);
        assert(at > 0) by {
            assert(first.take(prefix.len() as int)[0] == second.take(prefix.len() as int)[0]);
        }
        assert(first[at - 1] == second[at - 1]) by {
            assert(first.take(at)[at - 1] == second.take(at)[at - 1]);
        }
        let list = adj_map.dependents_of(first[at - 1].id);
        assert(!first[at - 1].declared() && adj_map.has_edge(first[at - 1].id, first[at]));
        assert(!second[at - 1].declared() && adj_map.has_edge(second[at - 1].id, second[at]));
        lemma_one_is_listed_first(list, first[at], second[at]);
        if listed_before(list, first[at], second[at]) {
            assert(diverge_at(adj_map, first, second, at));
        } else {
            assert(diverge_at(adj_map, second, first, at));
        }
    }
}

/// The results of a search are in the order of the search: whatever the
/// search comes upon before one of its results is listed before that result.
pub open spec fn in_search_order(
    adj_map: &AdjacencyMap,
    prefix: Seq<Package>,
    results: Seq<Vec<Package>>,
    from: int,
) -> bool {
    forall|k: int, other: Seq<Package>|
        from <= k < results.len() && completes(adj_map, prefix, other) && #[trigger] found_before(
            adj_map,
            other,
            results[k]@,
        ) ==> lists_within(results, from, k, other)
}

/// The search stays in order when it goes on from the `k`-th dependent of the
/// last package of `trail`: `listed` are the results up to then, `results`
/// those after.
proof fn lemma_search_order_step(
    adj_map: &AdjacencyMap,
    trail: Seq<Package>,
    parents: Seq<Package>,
    k: int,
    from: int,
    listed: Seq<Vec<Package>>,
    results: Seq<Vec<Package>>,
)
    requires
        trail.len() > 0,
        !trail.last().declared(),
        parents == adj_map.dependents_of(trail.last().id),
        0 <= k < parents.len(),
        0 <= from <= listed.len() <= results.len(),
        results.take(listed.len() as int) == listed,
        in_search_order(adj_map, trail, listed, from),
        forall|j: int, other: Seq<Package>|
            0 <= j < k && #[trigger] completes(adj_map, trail.push(parents[j]), other) ==> lists(
                listed,
                from,
                other,
            ),
        forall|a: int|
            listed.len() <= a < results.len() ==> completes(
                adj_map,
                trail.push(parents[k]),
                (#[trigger] results[a])@,
            ),
        in_search_order(adj_map, trail.push(parents[k]), results, listed.len() as int),
    ensures
        in_search_order(adj_map, trail, results, from),
{
    let n = trail.len() - 1;
    assert forall|a: int, other: Seq<Package>|
        from <= a < results.len() && completes(adj_map, trail, other) && #[trigger] found_before(
            adj_map,
            other,
            results[a]@,
        ) implies lists_within(results, from, a, other) by {
        if a < listed.len() {
            assert(results.take(listed.len() as int)[a] == results[a]);
            assert(found_before(adj_map, other, listed[a]@));
            let b = choose|b: int|
                from <= b < a && b < listed.len() && (#[trigger] listed[b])@ == other;
            assert(results.take(listed.len() as int)[b] == results[b]);
        } else {
            let found = results[a]@;
            let at = choose|at: int| #[trigger] diverge_at(adj_map, other, found, at);
            let list = adj_map.dependents_of(other[at - 1].id);
            let i = choose|i: int| #[trigger] occurs_before(list, i, other[at], found[at]);
            assert(other[at] != found[at]);
            assert(other.take(n + 1)[n] == trail[n]);
            assert(found.take(n + 2)[n + 1] == trail.push(parents[k])[n + 1]);
            assert(at > n) by {
                if at <= n {
                    assert(found.take(n + 2)[at] == trail.push(parents[k])[at]);
                    assert(other.take(n + 1)[at] == trail[at]);
                }
            }
            assert(other.len() > n + 1);
            if at == n + 1 {
                assert(list == parents);
                assert(i < k) by {
                    if i >= k {
                        assert(list[k] != found[at]);
                    }
                }
                assert(other.take(n + 2) =~= trail.push(parents[i])) by {
                    assert forall|j: int| 0 <= j < n + 2 implies other.take(n + 2)[j]
                        == trail.push(parents[i])[j] by {
                        if j <= n {
                            assert(other.take(n + 1)[j] == trail[j]);
                        }
                    }
                }
                assert(completes(adj_map, trail.push(parents[i]), other));
                assert(lists(listed, from, other));
                let b = choose|b: int| from <= b < listed.len() && (#[trigger] listed[b])@ == other;
                assert(results.take(listed.len() as int)[b] == results[b]);
            } else {
                assert(other.take(at)[n + 1] == found.take(at)[n + 1]);
                assert(other.take(n + 2) =~= trail.push(parents[k])) by {
                    assert forall|j: int| 0 <= j < n + 2 implies other.take(n + 2)[j]
                        == trail.push(parents[k])[j] by {
                        if j <= n {
                            assert(other.take(n + 1)[j] == trail[j]);
                        }
                    }
                }
                assert(completes(adj_map, trail.push(parents[k]), other));
                assert(lists_within(results, listed.len() as int, a, other));
                let b = choose|b: int|
                    listed.len() <= b < a && b < results.len() && (#[trigger] results[b])@
                        == other;
                assert(from <= b < a);
            }
        }
    }
}

/// The identities of a trail.
pub open spec fn ids_of(trail: Seq<Package>) -> Seq<usize> {
    trail.map_values(|package: Package| package.id)
}

/// A trail that visits no package twice and only packages with recorded
/// dependents is no longer than the number of such packages.
proof fn lemma_trail_is_bounded(adj_map: &AdjacencyMap, trail: Seq<Package>)
    requires
        is_simple(trail),
        forall|i: int| 0 <= i < trail.len() ==> adj_map@.contains_key((#[trigger] trail[i]).id),
    ensures
        adj_map@.dom().finite(),
        trail.len() <= adj_map@.dom().len(),
{
    let ids = ids_of(trail);
    adj_map.lemma_finite();
    assert(ids.no_duplicates());
    ids.unique_seq_to_set();
    assert forall|id: usize| ids.to_set().contains(id) implies adj_map@.dom().contains(id) by {
        let i = choose|i: int| 0 <= i < ids.len() && ids[i] == id;
        assert(trail[i].id == id);
    }
    vstd::set_lib::lemma_len_subset(ids.to_set(), adj_map@.dom());
}

fn copy_trail(trail: &Vec<Package>) -> (copy: Vec<Package>)
    ensures
        copy@ == trail@,
{
    let mut copy: Vec<Package> = Vec::new();
    let mut i: usize = 0;
    while i < trail.len()
        invariant
            i <= trail@.len(),
            copy@ == trail@.take(i as int),
        decreases trail@.len() - i,
    {
        copy.push(trail[i]);
        assert(trail@.take(i + 1) =~= trail@.take(i as int).push(trail@[i as int]));
        i += 1;
    }
    assert(trail@.take(trail@.len() as int) =~= trail@);
    copy
}

fn visits(path: &Vec<Package>, id: usize) -> (found: bool)
    ensures
        found <==> exists|i: int| 0 <= i < path@.len() && (#[trigger] path@[i]).id == id,
{
    let mut i: usize = 0;
    while i < path.len()
        invariant
            i <= path@.len(),
            forall|k: int| 0 <= k < i ==> (#[trigger] path@[k]).id != id,
        decreases path@.len() - i,
    {
        if path[i].id == id {
            return true;
        }
        i += 1;
    }
    false
}

/// The results from position `from` on are pairwise different.
pub open spec fn lists_once(results: Seq<Vec<Package>>, from: int) -> bool {
    forall|j: int, k: int|
        from <= j < k < results.len() ==> (#[trigger] results[j])@ != (#[trigger] results[k])@
}

fn same_package(first: &Package, second: &Package) -> (same: bool)
    ensures
        same == (*first == *second),
{
    if first.id != second.id {
        return false;
    }
    match (first.span_in_manifest, second.span_in_manifest) {
        (Some(one), Some(other)) => one.0 == other.0 && one.1 == other.1,
        (None, None) => true,
        _ => false,
    }
}

/// Whether the package at position `at` stands at an earlier position too.
fn listed_earlier(list: &Vec<Package>, at: usize) -> (earlier: bool)
    requires
        at < list@.len(),
    ensures
        earlier <==> exists|j: int| 0 <= j < at && #[trigger] list@[j] == list@[at as int],
{
    let mut j: usize = 0;
    while j < at
        invariant
            j <= at < list@.len(),
            forall|i: int| 0 <= i < j ==> #[trigger] list@[i] != list@[at as int],
        decreases at - j,
    {
        if same_package(&list[j], &list[at]) {
            return true;
        }
        j += 1;
    }
    false
}

/// Depth-first search for the declared packages that `current` leads to.
///
/// `path` holds the packages walked so far, `current` excluded. Every way to
/// go on from `path` through `current` to the first declared package, without
/// visiting a package twice, is appended to `results` once, in the order in
/// which the search comes upon it. A dependent that is recorded twice is
/// followed once. `path` is left as it was.
pub fn dfs(
    current: Package,
    adj_map: &AdjacencyMap,
    path: &mut Vec<Package>,
    results: &mut Vec<Vec<Package>>,
)
    requires
        is_open_trail(adj_map, old(path)@.push(current)),
        is_simple(old(path)@),
    ensures
        final(path)@ == old(path)@,
        old(results)@.len() <= final(results)@.len(),
        final(results)@.take(old(results)@.len() as int) == old(results)@,
        forall|k: int|
            old(results)@.len() <= k < final(results)@.len() ==> completes(
                adj_map,
                old(path)@.push(current),
                (#[trigger] final(results)@[k])@,
            ),
        forall|found: Seq<Package>| #[trigger]
            completes(adj_map, old(path)@.push(current), found) ==> lists(
                final(results)@,
                old(results)@.len() as int,
                found,
            ),
        in_search_order(
            adj_map,
            old(path)@.push(current),
            final(results)@,
            old(results)@.len() as int,
        ),
        lists_once(final(results)@, old(results)@.len() as int),
    decreases adj_map@.dom().len() - old(path)@.len(),
{
    let ghost walked = old(path)@;
    let ghost trail = walked.push(current);
    let ghost before = old(results)@;
    let ghost n = walked.len() as int;
    if visits(path, current.id) {
        assert(results@.take(before.len() as int) =~= before);
        assert forall|found: Seq<Package>| #[trigger]
            completes(adj_map, trail, found) implies false by {
            let i = choose|i: int| 0 <= i < walked.len() && (#[trigger] walked[i]).id == current.id;
            assert(found.take(n + 1)[i] == trail[i]);
            assert(found.take(n + 1)[n] == trail[n]);
            assert(found[i].id == found[n].id);
        }
        return ;
    }
    path.push(current);
    assert(path@ == trail);
    assert(is_simple(trail));
    if current.is_declared() {
        let complete = copy_trail(path);
        results.push(complete);
        proof {
            assert(results@.take(before.len() as int) =~= before);
            assert(trail.take(trail.len() as int) =~= trail);
            assert(completes(adj_map, trail, trail));
            assert forall|found: Seq<Package>| #[trigger]
                completes(adj_map, trail, found) implies lists(
                results@,
                before.len() as int,
                found,
            ) by {
                assert(found.take(n + 1)[n] == trail[n]);
                assert(found[n].declared());
                if found.len() > n + 1 {
                    assert(!found[n].declared());
                }
                assert(found =~= found.take(n + 1));
                assert(results@[before.len() as int]@ == found);
            }
            assert forall|k: int, other: Seq<Package>|
                before.len() <= k < results@.len() && completes(adj_map, trail, other)
                    && #[trigger] found_before(adj_map, other, results@[k]@) implies lists_within(
                results@,
                before.len() as int,
                k,
                other,
            ) by {
                assert(other.take(n + 1)[n] == trail[n]);
                if other.len() > n + 1 {
                    assert(!other[n].declared());
                }
                assert(other =~= other.take(n + 1));
                let at = choose|at: int| #[trigger] diverge_at(adj_map, other, trail, at);
                let list = adj_map.dependents_of(other[at - 1].id);
                let i = choose|i: int| #[trigger] occurs_before(list, i, other[at], trail[at]);
                assert(list[i] != trail[at]);
            }
        }
    } else {
        match adj_map.get(current.id) {
            Some(dependents) => {
                proof {
                    assert forall|i: int| 0 <= i < trail.len() implies adj_map@.contains_key(
                        (#[trigger] trail[i]).id,
                    ) by {
                        if i < n {
                            assert(adj_map.has_edge(trail[i].id, trail[i + 1]));
                        }
                    }
                    lemma_trail_is_bounded(adj_map, trail);
                    assert(results@.take(before.len() as int) =~= before);
                }
                let mut k: usize = 0;
                while k < dependents.len()
                    invariant
                        k <= dependents@.len(),
                        dependents@ == adj_map@[current.id],
                        adj_map@.contains_key(current.id),
                        !current.declared(),
                        path@ == trail,
                        trail == walked.push(current),
                        walked == old(path)@,
                        n == walked.len(),
                        is_simple(trail),
                        is_open_trail(adj_map, trail),
                        adj_map@.dom().finite(),
                        trail.len() <= adj_map@.dom().len(),
                        before.len() <= results@.len(),
                        results@.take(before.len() as int) == before,
                        forall|r: int|
                            before.len() <= r < results@.len() ==> completes(
                                adj_map,
                                trail,
                                (#[trigger] results@[r])@,
                            ),
                        forall|j: int, found: Seq<Package>|
                            0 <= j < k && #[trigger] completes(
                                adj_map,
                                trail.push(dependents@[j]),
                                found,
                            ) ==> lists(results@, before.len() as int, found),
                        in_search_order(adj_map, trail, results@, before.len() as int),
                        lists_once(results@, before.len() as int),
                        forall|r: int|
                            before.len() <= r < results@.len() ==> (#[trigger] results@[r])@.len()
                                > n + 1 && exists|j: int|
                                0 <= j < k && #[trigger] dependents@[j] == results@[r]@[n + 1],
                    decreases dependents@.len() - k,
                {
                    let next = dependents[k];
                    let ghost listed = results@;
                    if listed_earlier(dependents, k) {
                        proof {
                            let first = choose|j: int|
                                0 <= j < k && #[trigger] dependents@[j] == dependents@[k as int];
                            assert forall|j: int, found: Seq<Package>|
                                0 <= j < k + 1 && #[trigger] completes(
                                    adj_map,
                                    trail.push(dependents@[j]),
                                    found,
                                ) implies lists(results@, before.len() as int, found) by {
                                if j == k {
                                    assert(completes(
                                        adj_map,
                                        trail.push(dependents@[first]),
                                        found,
                                    ));
                                }
                            }
                            assert forall|r: int|
                                before.len() <= r < results@.len() implies (
                            #[trigger] results@[r])@.len() > n + 1 && exists|j: int|
                                0 <= j < k + 1 && #[trigger] dependents@[j] == results@[r]@[n
                                    + 1] by {
                                let j = choose|j: int|
                                    0 <= j < k && #[trigger] dependents@[j] == results@[r]@[n + 1];
                                assert(0 <= j < k + 1 && dependents@[j] == results@[r]@[n + 1]);
                            }
                        }
                        k += 1;
                        continue ;
                    }
                    proof {
                        assert(adj_map.has_edge(current.id, next));
                        assert forall|i: int| 0 <= i < trail.push(next).len() - 1 implies !(
                        #[trigger] trail.push(next)[i]).declared() && adj_map.has_edge(
                            trail.push(next)[i].id,
                            trail.push(next)[i + 1],
                        ) by {
                            if i < n {
                                assert(!trail[i].declared() && adj_map.has_edge(
                                    trail[i].id,
                                    trail[i + 1],
                                ));
                            }
                        }
                    }
                    dfs(next, adj_map, path, results);
                    proof {
                        assert(trail.last() == current);
                        assert(adj_map.dependents_of(current.id) == dependents@);
                        lemma_search_order_step(
                            adj_map,
                            trail,
                            dependents@,
                            k as int,
                            before.len() as int,
                            listed,
                            results@,
                        );
                        assert(results@.take(before.len() as int) =~= results@.take(
                            listed.len() as int,
                        ).take(before.len() as int));
                        assert forall|r: int|
                            before.len() <= r < results@.len() implies completes(
                            adj_map,
                            trail,
                            (#[trigger] results@[r])@,
                        ) by {
                            let found = results@[r]@;
                            if r < listed.len() {
                                assert(results@.take(listed.len() as int)[r] == listed[r]);
                            } else {
                                assert(completes(adj_map, trail.push(next), found));
                                assert(found.take(n + 1) =~= found.take(n + 2).take(n + 1));
                                assert(trail.push(next).take(n + 1) =~= trail);
                            }
                        }
                        assert forall|j: int, found: Seq<Package>|
                            0 <= j < k + 1 && #[trigger] completes(
                                adj_map,
                                trail.push(dependents@[j]),
                                found,
                            ) implies lists(results@, before.len() as int, found) by {
                            if j < k {
                                assert(lists(listed, before.len() as int, found));
                                let r = choose|r: int|
                                    before.len() <= r < listed.len() && (#[trigger] listed[r])@
                                        == found;
                                assert(results@.take(listed.len() as int)[r] == listed[r]);
                                assert(results@[r]@ == found);
                            } else {
                                assert(lists(results@, listed.len() as int, found));
                            }
                        }
                        assert forall|r: int|
                            before.len() <= r < results@.len() implies (
                        #[trigger] results@[r])@.len() > n + 1 && exists|j: int|
                            0 <= j < k + 1 && #[trigger] dependents@[j] == results@[r]@[n + 1] by {
                            if r < listed.len() {
                                assert(results@.take(listed.len() as int)[r] == listed[r]);
                                let j = choose|j: int|
                                    0 <= j < k && #[trigger] dependents@[j] == listed[r]@[n + 1];
                                assert(0 <= j < k + 1 && dependents@[j] == results@[r]@[n + 1]);
                            } else {
                                let found = results@[r]@;
                                assert(completes(adj_map, trail.push(next), found));
                                assert(found.take(n + 2)[n + 1] == trail.push(next)[n + 1]);
                                assert(dependents@[k as int] == found[n + 1]);
                            }
                        }
                        assert forall|a: int, b: int|
                            before.len() <= a < b < results@.len() implies (
                        #[trigger] results@[a])@ != (#[trigger] results@[b])@ by {
                            if b < listed.len() {
                                assert(results@.take(listed.len() as int)[a] == listed[a]);
                                assert(results@.take(listed.len() as int)[b] == listed[b]);
                            } else if a < listed.len() {
                                assert(results@.take(listed.len() as int)[a] == listed[a]);
                                let j = choose|j: int|
                                    0 <= j < k && #[trigger] dependents@[j] == listed[a]@[n + 1];
                                let found = results@[b]@;
                                assert(completes(adj_map, trail.push(next), found));
                                assert(found.take(n + 2)[n + 1] == trail.push(next)[n + 1]);
                                assert(listed[a]@[n + 1] != found[n + 1]);
                            }
                        }
                    }
                    k += 1;
                }
                proof {
                    assert forall|found: Seq<Package>| #[trigger]
                        completes(adj_map, trail, found) implies lists(
                        results@,
                        before.len() as int,
                        found,
                    ) by {
                        assert(found.take(n + 1)[n] == trail[n]);
                        assert(found[n] == current);
                        assert(found.len() > n + 1);
                        assert(adj_map.has_edge(found[n].id, found[n + 1]));
                        let j = choose|j: int|
                            0 <= j < dependents@.len() && dependents@[j] == found[n + 1];
                        assert(found.take(n + 2) =~= trail.push(dependents@[j])) by {
                            assert forall|i: int| 0 <= i < n + 2 implies found.take(n + 2)[i]
                                == trail.push(dependents@[j])[i] by {
                                if i <= n {
                                    assert(found.take(n + 1)[i] == trail[i]);
                                }
                            }
                        }
                        assert(completes(adj_map, trail.push(dependents@[j]), found));
                    }
                }
            },
            None => {
                proof {
                    assert(results@.take(before.len() as int) =~= before);
                    assert forall|found: Seq<Package>| #[trigger]
                        completes(adj_map, trail, found) implies false by {
                        assert(found.take(n + 1)[n] == trail[n]);
                        assert(found[n] == current);
                        assert(found.len() > n + 1);
                        assert(adj_map.has_edge(found[n].id, found[n + 1]));
                    }
                }
            },
        }
    }
    path.pop();
    assert(path@ =~= walked);
}

/// The shortest causal path of `target`: from `target` up to the nearest
/// package that the manifest declares. `None` when no chain of recorded
/// dependents leads from `target` to a declared package. Among several
/// shortest paths the one that the depth-first search finds first is returned.
pub fn shortest_path(target: Package, adj_map: &AdjacencyMap) -> (found: Option<Vec<Package>>)
    ensures
        found matches Some(path) ==> is_causal_path(adj_map, target, path@),
        found matches Some(path) ==> forall|other: Seq<Package>| #[trigger]
            is_causal_path(adj_map, target, other) ==> path@.len() <= other.len(),
        found matches Some(path) ==> forall|other: Seq<Package>| #[trigger]
            is_causal_path(adj_map, target, other) && other.len() == path@.len() && other
                != path@ ==> found_before(adj_map, path@, other),
        found is None <==> forall|other: Seq<Package>| !is_causal_path(adj_map, target, other),
{
    let mut path: Vec<Package> = Vec::new();
    let mut results: Vec<Vec<Package>> = Vec::new();
    assert(path@.push(target) =~= seq![target]);
    dfs(target, adj_map, &mut path, &mut results);
    if results.len() == 0 {
        assert forall|other: Seq<Package>| !is_causal_path(adj_map, target, other) by {
            if is_causal_path(adj_map, target, other) {
                assert(lists(results@, 0, other));
            }
        }
        return None;
    }
    let mut best: usize = 0;
    let mut i: usize = 1;
    while i < results.len()
        invariant
            best < i <= results@.len(),
            forall|k: int| 0 <= k < i ==> results@[best as int]@.len() <= (#[trigger] results@[k])@.len(),
            forall|k: int| 0 <= k < best ==> results@[best as int]@.len() < (#[trigger] results@[k])@.len(),
        decreases results@.len() - i,
    {
        if results[i].len() < results[best].len() {
            best = i;
        }
        i += 1;
    }
    let shortest = copy_trail(&results[best]);
    proof {
        assert(is_causal_path(adj_map, target, results@[best as int]@));
        assert forall|other: Seq<Package>| #[trigger]
            is_causal_path(adj_map, target, other) implies shortest@.len() <= other.len() by {
            assert(lists(results@, 0, other));
            let k = choose|k: int| 0 <= k < results@.len() && (#[trigger] results@[k])@ == other;
            assert(results@[best as int]@.len() <= results@[k]@.len());
        }
        assert forall|other: Seq<Package>| #[trigger]
            is_causal_path(adj_map, target, other) && other.len() == shortest@.len() && other
                != shortest@ implies found_before(adj_map, shortest@, other) by {
            lemma_one_is_found_first(adj_map, seq![target], shortest@, other);
            if found_before(adj_map, other, shortest@) {
                assert(found_before(adj_map, other, results@[best as int]@));
                assert(lists_within(results@, 0, best as int, other));
                let k = choose|k: int|
                    0 <= k < best && k < results@.len() && (#[trigger] results@[k])@ == other;
                assert(results@[best as int]@.len() < results@[k]@.len());
            }
        }
    }
    Some(shortest)
}

} // verus!
