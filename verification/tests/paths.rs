use conflict::adjacency::AdjacencyMap;
use conflict::package::Package;
use conflict::path::{dfs, shortest_path};

fn transitive(id: usize) -> Package {
    Package::new(id, None)
}

fn declared(id: usize, offset: usize) -> Package {
    Package::new(id, Some((offset, 3)))
}

fn ids(path: &[Package]) -> Vec<usize> {
    path.iter().map(|package| package.id).collect()
}

#[test]
fn packages_are_equal_by_identity() {
    assert_eq!(Package::new(3, None), Package::new(3, Some((10, 2))));
    assert_ne!(Package::new(3, None), Package::new(4, None));
    assert!(Package::new(1, Some((0, 1))).is_declared());
    assert!(!Package::new(1, None).is_declared());
}

#[test]
fn new_map_is_empty() {
    let map = AdjacencyMap::new();
    assert!(!map.contains_key(0));
    assert!(map.get(0).is_none());
}

#[test]
fn insert_records_each_dependent_once() {
    let mut map = AdjacencyMap::new();
    map.insert(transitive(0), transitive(1));
    map.insert(transitive(0), transitive(2));
    map.insert(transitive(0), transitive(1));
    map.insert(transitive(5), declared(6, 40));
    assert!(map.contains_key(0));
    assert!(map.contains_key(5));
    assert!(!map.contains_key(1));
    assert_eq!(ids(map.get(0).expect("recorded above")), vec![1, 2]);
    assert_eq!(ids(map.get(5).expect("recorded above")), vec![6]);
    assert_eq!(map.get(5).expect("recorded above")[0].span_in_manifest, Some((40, 3)));
}

#[test]
fn declared_target_is_its_own_path() {
    let map = AdjacencyMap::new();
    let path = shortest_path(declared(7, 12), &map).expect("the target is declared");
    assert_eq!(ids(&path), vec![7]);
}

#[test]
fn target_without_dependents_has_no_path() {
    let map = AdjacencyMap::new();
    assert!(shortest_path(transitive(7), &map).is_none());
}

#[test]
fn branch_without_declaration_has_no_path() {
    let mut map = AdjacencyMap::new();
    map.insert(transitive(0), transitive(1));
    map.insert(transitive(1), transitive(2));
    assert!(shortest_path(transitive(0), &map).is_none());
}

#[test]
fn shortest_of_several_roots_is_chosen() {
    // 0 <- 1 <- 2 <- 3 (declared), and 0 <- 4 <- 5 (declared)
    let mut map = AdjacencyMap::new();
    map.insert(transitive(0), transitive(1));
    map.insert(transitive(1), transitive(2));
    map.insert(transitive(2), declared(3, 10));
    map.insert(transitive(0), transitive(4));
    map.insert(transitive(4), declared(5, 20));
    let path = shortest_path(transitive(0), &map).expect("two roots are reachable");
    assert_eq!(ids(&path), vec![0, 4, 5]);
    assert_eq!(path[2].span_in_manifest, Some((20, 3)));
}

#[test]
fn tie_still_yields_a_path() {
    let mut map = AdjacencyMap::new();
    map.insert(transitive(0), declared(1, 10));
    map.insert(transitive(0), declared(2, 20));
    let path = shortest_path(transitive(0), &map).expect("two roots are reachable");
    assert_eq!(path.len(), 2);
    assert_eq!(ids(&path), vec![0, 1]);
}

#[test]
fn search_stops_at_the_first_declaration() {
    // 0 <- 1 (declared) <- 2 (declared): the path ends at 1.
    let mut map = AdjacencyMap::new();
    map.insert(transitive(0), declared(1, 10));
    map.insert(declared(1, 10), declared(2, 20));
    let path = shortest_path(transitive(0), &map).expect("a root is reachable");
    assert_eq!(ids(&path), vec![0, 1]);
}

#[test]
fn cycle_is_tolerated() {
    // 0 <- 1 <- 2 <- 1 ... and 2 <- 3 (declared)
    let mut map = AdjacencyMap::new();
    map.insert(transitive(0), transitive(1));
    map.insert(transitive(1), transitive(2));
    map.insert(transitive(2), transitive(1));
    map.insert(transitive(2), declared(3, 30));
    let path = shortest_path(transitive(0), &map).expect("a root is reachable");
    assert_eq!(ids(&path), vec![0, 1, 2, 3]);
}

#[test]
fn cycle_without_declaration_has_no_path() {
    let mut map = AdjacencyMap::new();
    map.insert(transitive(0), transitive(1));
    map.insert(transitive(1), transitive(0));
    assert!(shortest_path(transitive(0), &map).is_none());
}

#[test]
fn dfs_lists_every_way_to_a_declaration() {
    let mut map = AdjacencyMap::new();
    map.insert(transitive(0), transitive(1));
    map.insert(transitive(1), declared(3, 10));
    map.insert(transitive(0), transitive(2));
    map.insert(transitive(2), declared(3, 10));
    map.insert(transitive(2), declared(4, 20));
    let mut path = Vec::new();
    let mut results = Vec::new();
    dfs(transitive(0), &map, &mut path, &mut results);
    assert!(path.is_empty());
    let found: Vec<Vec<usize>> = results.iter().map(|path| ids(path)).collect();
    assert_eq!(found, vec![vec![0, 1, 3], vec![0, 2, 3], vec![0, 2, 4]]);
}

#[test]
fn dfs_keeps_earlier_results_and_the_path() {
    let mut map = AdjacencyMap::new();
    map.insert(transitive(0), transitive(1));
    map.insert(transitive(1), declared(2, 10));
    let mut path = vec![transitive(0)];
    let mut results = vec![vec![declared(9, 1)]];
    dfs(transitive(1), &map, &mut path, &mut results);
    assert_eq!(ids(&path), vec![0]);
    assert_eq!(results.len(), 2);
    assert_eq!(ids(&results[0]), vec![9]);
    assert_eq!(ids(&results[1]), vec![0, 1, 2]);
}

#[test]
fn dfs_does_not_revisit_a_package_of_the_path() {
    let mut map = AdjacencyMap::new();
    map.insert(transitive(0), transitive(1));
    map.insert(transitive(1), transitive(0));
    map.insert(transitive(0), declared(2, 5));
    let mut path = vec![transitive(0), transitive(1)];
    let mut results = Vec::new();
    dfs(transitive(0), &map, &mut path, &mut results);
    assert!(results.is_empty());
    assert_eq!(ids(&path), vec![0, 1]);
}

#[test]
fn dfs_lists_each_path_once() {
    let mut map = AdjacencyMap::new();
    map.insert(transitive(0), declared(1, 15));
    map.insert(transitive(0), declared(2, 23));
    map.insert(transitive(0), declared(1, 15));
    let mut path = Vec::new();
    let mut results = Vec::new();
    dfs(transitive(0), &map, &mut path, &mut results);
    let found: Vec<Vec<usize>> = results.iter().map(|path| ids(path)).collect();
    assert_eq!(found, vec![vec![0, 1], vec![0, 2]]);
}

#[test]
fn dfs_from_a_declared_package_lists_it_alone() {
    let map = AdjacencyMap::new();
    let mut path = Vec::new();
    let mut results = Vec::new();
    dfs(declared(4, 8), &map, &mut path, &mut results);
    let found: Vec<Vec<usize>> = results.iter().map(|path| ids(path)).collect();
    assert_eq!(found, vec![vec![4]]);
}
