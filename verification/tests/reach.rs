use conflict::adjacency::AdjacencyMap;
use conflict::cause::investigate;
use conflict::graph::{DependencyGraph, GraphNode, PackageLink};
use conflict::manifest::CargoManifest;
use conflict::package::Package;
use conflict::reach::{resolve_package, reverse_bfs};

const TEXT: &str = "[dependencies]\ncrate-a = \"1\"\ncrate-b = \"1\"\n";

fn manifest() -> CargoManifest {
    CargoManifest::parse("Cargo.toml".to_string(), TEXT).expect("the text is valid TOML")
}

fn node(name: &str, dependents: &[usize]) -> GraphNode {
    GraphNode { name: name.to_string(), version: "1.0.0".to_string(), dependents: dependents.to_vec() }
}

/// 0 root, 1 crate-a, 2 crate-b, 3 middle, 4 leaf, 5 orphan
/// leaf <- middle <- crate-a <- root, leaf <- crate-b <- root, orphan has no dependents.
fn graph() -> DependencyGraph {
    DependencyGraph {
        nodes: vec![
            node("root", &[]),
            node("crate-a", &[0]),
            node("crate-b", &[0]),
            node("middle", &[1]),
            node("leaf", &[3, 2]),
            node("orphan", &[]),
        ],
    }
}

fn ids(path: &[Package]) -> Vec<usize> {
    path.iter().map(|package| package.id).collect()
}

#[test]
fn graph_knows_its_shape() {
    let graph = graph();
    assert_eq!(graph.package_count(), 6);
    assert!(graph.is_well_formed());
    let broken = DependencyGraph { nodes: vec![node("a", &[1])] };
    assert!(!broken.is_well_formed());
    let empty = DependencyGraph { nodes: vec![] };
    assert!(empty.is_well_formed());
}

#[test]
fn resolving_attaches_the_span() {
    let manifest = manifest();
    let graph = graph();
    let declared = resolve_package(&manifest.document, &graph, 1);
    assert_eq!(declared.id, 1);
    assert_eq!(declared.span_in_manifest, Some((15, 7)));
    let transitive = resolve_package(&manifest.document, &graph, 4);
    assert_eq!(transitive.span_in_manifest, None);
}

#[test]
fn walk_stops_at_declared_dependents() {
    let manifest = manifest();
    let graph = graph();
    let mut map = AdjacencyMap::new();
    reverse_bfs(&manifest.document, &graph, PackageLink { from: 3, to: 4 }, &mut map);
    assert_eq!(ids(map.get(4).expect("the link itself is recorded")), vec![3]);
    assert_eq!(ids(map.get(3).expect("middle is transitive")), vec![1]);
    assert!(!map.contains_key(1));
    assert!(!map.contains_key(0));
    assert!(!map.contains_key(2));
    assert!(!map.contains_key(5));
}

#[test]
fn walk_records_only_the_link_at_a_declared_dependent() {
    let manifest = manifest();
    let graph = graph();
    let mut map = AdjacencyMap::new();
    reverse_bfs(&manifest.document, &graph, PackageLink { from: 2, to: 4 }, &mut map);
    assert_eq!(ids(map.get(4).expect("the link itself is recorded")), vec![2]);
    assert_eq!(map.get(4).expect("checked above")[0].span_in_manifest, Some((29, 7)));
    assert!(!map.contains_key(2));
    assert!(!map.contains_key(3));
}

#[test]
fn walks_accumulate_in_one_map() {
    let manifest = manifest();
    let graph = graph();
    let mut map = AdjacencyMap::new();
    reverse_bfs(&manifest.document, &graph, PackageLink { from: 3, to: 4 }, &mut map);
    reverse_bfs(&manifest.document, &graph, PackageLink { from: 2, to: 4 }, &mut map);
    reverse_bfs(&manifest.document, &graph, PackageLink { from: 3, to: 4 }, &mut map);
    assert_eq!(ids(map.get(4).expect("recorded")), vec![3, 2]);
    assert_eq!(ids(map.get(3).expect("recorded")), vec![1]);
}

#[test]
fn walk_runs_to_the_top_without_declarations() {
    let manifest = CargoManifest::parse("Cargo.toml".to_string(), "[package]\nname = \"x\"\n")
        .expect("the text is valid TOML");
    let graph = graph();
    let mut map = AdjacencyMap::new();
    reverse_bfs(&manifest.document, &graph, PackageLink { from: 3, to: 4 }, &mut map);
    assert_eq!(ids(map.get(4).expect("recorded")), vec![3]);
    assert_eq!(ids(map.get(3).expect("recorded")), vec![1]);
    assert_eq!(ids(map.get(1).expect("recorded")), vec![0]);
    assert!(!map.contains_key(0));
}

#[test]
fn walk_terminates_on_a_cycle() {
    let manifest = manifest();
    let graph = DependencyGraph {
        nodes: vec![node("x", &[1]), node("y", &[0, 2]), node("crate-a", &[])],
    };
    let mut map = AdjacencyMap::new();
    reverse_bfs(&manifest.document, &graph, PackageLink { from: 1, to: 0 }, &mut map);
    assert_eq!(ids(map.get(0).expect("recorded")), vec![1]);
    assert_eq!(ids(map.get(1).expect("recorded")), vec![0, 2]);
    assert!(!map.contains_key(2));
}

#[test]
fn investigation_finds_the_nearest_declaration() {
    let manifest = manifest();
    let graph = graph();
    let path = investigate(&manifest.document, &graph, &vec![4]).expect("leaf is traceable");
    assert_eq!(ids(&path), vec![4, 2]);
    assert_eq!(path[1].span_in_manifest, Some((29, 7)));
    let path = investigate(&manifest.document, &graph, &vec![3]).expect("middle is traceable");
    assert_eq!(ids(&path), vec![3, 1]);
    assert_eq!(path[1].span_in_manifest, Some((15, 7)));
}

#[test]
fn investigation_passes_over_versions_without_dependents() {
    let manifest = manifest();
    let graph = graph();
    let path = investigate(&manifest.document, &graph, &vec![5, 3]).expect("middle is traceable");
    assert_eq!(ids(&path), vec![3, 1]);
}

#[test]
fn investigation_without_dependents_finds_nothing() {
    let manifest = manifest();
    let graph = graph();
    assert!(investigate(&manifest.document, &graph, &vec![5]).is_none());
    assert!(investigate(&manifest.document, &graph, &vec![]).is_none());
}

#[test]
fn investigation_without_declaration_finds_nothing() {
    let manifest = CargoManifest::parse("Cargo.toml".to_string(), "[package]\nname = \"x\"\n")
        .expect("the text is valid TOML");
    let graph = graph();
    assert!(investigate(&manifest.document, &graph, &vec![4]).is_none());
}

#[test]
fn declared_package_with_dependents_explains_itself() {
    let manifest = manifest();
    let graph = graph();
    let path = investigate(&manifest.document, &graph, &vec![1]).expect("crate-a is declared");
    assert_eq!(ids(&path), vec![1]);
}

#[test]
fn of_two_shortest_paths_the_first_listed_dependent_wins() {
    let manifest = manifest();
    let first_b = DependencyGraph {
        nodes: vec![node("crate-a", &[]), node("crate-b", &[]), node("leaf", &[1, 0])],
    };
    let path = investigate(&manifest.document, &first_b, &vec![2]).expect("leaf is traceable");
    assert_eq!(ids(&path), vec![2, 1]);
    let first_a = DependencyGraph {
        nodes: vec![node("crate-a", &[]), node("crate-b", &[]), node("leaf", &[0, 1, 0])],
    };
    let path = investigate(&manifest.document, &first_a, &vec![2]).expect("leaf is traceable");
    assert_eq!(ids(&path), vec![2, 0]);
}

#[test]
fn longer_path_listed_first_does_not_win() {
    let manifest = manifest();
    // leaf <- middle <- crate-a and leaf <- crate-b; middle is listed first.
    let graph = DependencyGraph {
        nodes: vec![
            node("crate-a", &[]),
            node("crate-b", &[]),
            node("middle", &[0]),
            node("leaf", &[2, 1]),
        ],
    };
    let path = investigate(&manifest.document, &graph, &vec![3]).expect("leaf is traceable");
    assert_eq!(ids(&path), vec![3, 1]);
}

#[test]
fn walk_makes_keys_of_the_packages_with_recorded_dependents_only() {
    let manifest = manifest();
    let graph = graph();
    let mut map = AdjacencyMap::new();
    reverse_bfs(&manifest.document, &graph, PackageLink { from: 3, to: 4 }, &mut map);
    let keys: Vec<usize> = (0..graph.package_count()).filter(|id| map.contains_key(*id)).collect();
    assert_eq!(keys, vec![3, 4]);
    reverse_bfs(&manifest.document, &graph, PackageLink { from: 3, to: 4 }, &mut map);
    let again: Vec<usize> = (0..graph.package_count()).filter(|id| map.contains_key(*id)).collect();
    assert_eq!(again, vec![3, 4]);
    assert_eq!(ids(map.get(4).expect("recorded")), vec![3]);
}

#[test]
fn orphan_branch_leaves_one_key() {
    let manifest = CargoManifest::parse("Cargo.toml".to_string(), "[dependencies]\n")
        .expect("the text is valid TOML");
    let graph = DependencyGraph { nodes: vec![node("x", &[1]), node("orphan", &[])] };
    let mut map = AdjacencyMap::new();
    reverse_bfs(&manifest.document, &graph, PackageLink { from: 1, to: 0 }, &mut map);
    assert!(map.contains_key(0));
    assert!(!map.contains_key(1));
    assert_eq!(ids(map.get(0).expect("recorded")), vec![1]);
    assert_eq!(map.get(0).expect("recorded")[0].span_in_manifest, None);
}
