use conflict::dependency::{
    build_dependency_index, eval_ruleset, Dependency, DependencyIndex, DependencyProperty,
};
use conflict::engine::EngineState;
use conflict::graph::{DependencyGraph, GraphNode};
use conflict::group::{build_group_index, eval_dependencies, GroupIndex};
use conflict::manifest::CargoManifest;
use conflict::ruleset::{Group, Ruleset};

fn node(name: &str, dependents: &[usize]) -> GraphNode {
    GraphNode { name: name.to_string(), version: "1.0.0".to_string(), dependents: dependents.to_vec() }
}

fn group(name: &str, members: &[&str]) -> Group {
    Group { name: name.to_string(), members: members.iter().map(|member| member.to_string()).collect() }
}

fn graph() -> DependencyGraph {
    DependencyGraph {
        nodes: vec![
            node("root", &[]),
            node("openssl-sys", &[0]),
            node("rand", &[0]),
            node("rand", &[1]),
            node("boring-sys", &[0]),
        ],
    }
}

fn groups() -> Vec<Group> {
    vec![
        group("openssl", &["openssl-sys", "libssl-fips"]),
        group("boring", &["boring-sys"]),
        group("random", &["rand", "rand"]),
        group("tls", &["openssl-sys", "boring-sys", "rustls"]),
        group("stale", &["libssl-fips", "gone"]),
    ]
}

fn ids_of(index: &DependencyIndex, name: &str) -> Vec<usize> {
    index.get(name).expect("the name has an entry").package_ids.clone()
}

fn groups_of(index: &DependencyIndex, name: &str) -> Vec<String> {
    index.get(name).expect("the name has an entry").groups.clone()
}

/// The names under `group`, sorted: the order in which they stand there is
/// that in which the dependency index hands out its names.
fn names_in(index: &GroupIndex, group: &str) -> Vec<String> {
    let mut names: Vec<String> = index
        .get(group)
        .expect("the group has an entry")
        .iter()
        .map(|dependency| dependency.name.clone())
        .collect();
    names.sort();
    names
}

fn state() -> EngineState {
    let manifest = CargoManifest::parse("Cargo.toml".to_string(), "[dependencies]\n")
        .expect("the text is valid TOML");
    EngineState::new(manifest, graph(), Ruleset { groups: groups(), rules: vec![] })
}

#[test]
fn property_starts_with_one_group_and_no_package() {
    let mut property = DependencyProperty::new("openssl");
    assert!(property.package_ids.is_empty());
    assert_eq!(property.groups, vec!["openssl".to_string()]);
    assert!(!property.is_resolved());
    property.insert_group("tls");
    assert_eq!(property.groups, vec!["openssl".to_string(), "tls".to_string()]);
    property.insert_package(4);
    property.insert_package(2);
    assert_eq!(property.package_ids, vec![4, 2]);
    assert!(property.is_resolved());
}

#[test]
fn dependency_keeps_name_and_property() {
    let dependency = Dependency::new("rand", DependencyProperty::new("random"));
    assert_eq!(dependency.name, "rand");
    assert_eq!(dependency.properties.groups, vec!["random".to_string()]);
}

#[test]
fn index_holds_names_that_are_listed_and_present() {
    let index = build_dependency_index(&groups(), &graph().nodes);
    assert_eq!(index.len(), 3);
    assert_eq!(ids_of(&index, "openssl-sys"), vec![1]);
    assert_eq!(ids_of(&index, "boring-sys"), vec![4]);
    assert_eq!(ids_of(&index, "rand"), vec![2, 3]);
}

#[test]
fn index_names_each_listing_group_in_order() {
    let index = build_dependency_index(&groups(), &graph().nodes);
    assert_eq!(groups_of(&index, "openssl-sys"), vec!["openssl".to_string(), "tls".to_string()]);
    assert_eq!(groups_of(&index, "boring-sys"), vec!["boring".to_string(), "tls".to_string()]);
    assert_eq!(groups_of(&index, "rand"), vec!["random".to_string(), "random".to_string()]);
}

#[test]
fn every_entry_resolves_to_a_package() {
    let index = build_dependency_index(&groups(), &graph().nodes);
    for entry in index.iter() {
        assert!(!entry.value().package_ids.is_empty());
    }
}

#[test]
fn absent_member_never_appears() {
    let index = build_dependency_index(&groups(), &graph().nodes);
    assert!(index.get("libssl-fips").is_none());
    assert!(index.get("gone").is_none());
    assert!(index.get("rustls").is_none());
    let filed = build_group_index(&index);
    assert!(filed.get("stale").is_none());
    assert_eq!(names_in(&filed, "openssl"), vec!["openssl-sys".to_string()]);
}

#[test]
fn package_that_no_group_lists_has_no_entry() {
    let index = build_dependency_index(&groups(), &graph().nodes);
    assert!(index.get("root").is_none());
}

#[test]
fn empty_ruleset_gives_empty_indexes() {
    let index = build_dependency_index(&vec![], &graph().nodes);
    assert!(index.is_empty());
    let filed = build_group_index(&index);
    assert!(filed.is_empty());
}

#[test]
fn empty_graph_prunes_everything() {
    let index = build_dependency_index(&groups(), &vec![]);
    assert!(index.is_empty());
}

#[test]
fn group_index_files_each_dependency_under_the_groups_it_names() {
    let index = build_dependency_index(&groups(), &graph().nodes);
    let filed = build_group_index(&index);
    assert_eq!(filed.len(), 4);
    assert_eq!(names_in(&filed, "boring"), vec!["boring-sys".to_string()]);
    assert_eq!(names_in(&filed, "random"), vec!["rand".to_string(), "rand".to_string()]);
    assert_eq!(
        names_in(&filed, "tls"),
        vec!["boring-sys".to_string(), "openssl-sys".to_string()]
    );
}

#[test]
fn group_index_carries_the_properties() {
    let index = build_dependency_index(&groups(), &graph().nodes);
    let filed = build_group_index(&index);
    let random = filed.get("random").expect("the group has an entry");
    assert_eq!(random[0].properties.package_ids, vec![2, 3]);
    assert_eq!(random[0].properties.groups, vec!["random".to_string(), "random".to_string()]);
}

#[test]
fn groups_of_one_name_share_an_entry() {
    let doubled = vec![group("ssl", &["openssl-sys"]), group("ssl", &["boring-sys"])];
    let index = build_dependency_index(&doubled, &graph().nodes);
    assert_eq!(groups_of(&index, "openssl-sys"), vec!["ssl".to_string()]);
    let filed = build_group_index(&index);
    assert_eq!(filed.len(), 1);
    assert_eq!(names_in(&filed, "ssl"), vec!["boring-sys".to_string(), "openssl-sys".to_string()]);
}

#[test]
fn engine_state_builds_both_indexes() {
    let mut state = state();
    assert!(state.dependency_index.is_empty());
    assert!(state.group_index.is_empty());
    state.build_indexes();
    assert_eq!(state.dependency_index.len(), 3);
    assert_eq!(state.group_index.len(), 4);
    assert_eq!(state.graph.package_count(), 5);
    assert_eq!(state.ruleset.groups.len(), 5);
}

#[test]
fn eval_ruleset_reads_the_state() {
    let state = state();
    let index = eval_ruleset(&state).expect("the index is always built");
    assert_eq!(ids_of(&index, "rand"), vec![2, 3]);
    assert!(index.get("libssl-fips").is_none());
}

#[test]
fn eval_dependencies_reads_the_dependency_index_of_the_state() {
    let mut state = state();
    let empty = eval_dependencies(&state).expect("the index is always built");
    assert!(empty.is_empty());
    state.dependency_index = eval_ruleset(&state).expect("the index is always built");
    let filed = eval_dependencies(&state).expect("the index is always built");
    assert_eq!(names_in(&filed, "openssl"), vec!["openssl-sys".to_string()]);
}

#[test]
fn shared_types_are_reachable_from_every_module_that_uses_them() {
    let property = conflict::ruleset::DependencyProp::new("openssl");
    let dependency = conflict::ruleset::Dependency::new("openssl-sys", property);
    assert_eq!(dependency.properties.groups, vec!["openssl".to_string()]);
    let package = conflict::dependency::Package::new(1, None);
    assert_eq!(package, conflict::ruleset::Package::new(1, Some((0, 1))));
    let listed = conflict::group::Group { name: "tls".to_string(), members: vec![] };
    assert!(listed.members.is_empty());
    let manifest = conflict::engine::CargoManifest::parse("Cargo.toml".to_string(), "")
        .expect("the empty text is valid TOML");
    assert_eq!(manifest.source(), "");
    let map = conflict::ruleset::AdjacencyMap::new();
    assert!(!map.contains_key(0));
}

fn property(ids: &[usize], groups: &[&str]) -> DependencyProperty {
    DependencyProperty {
        package_ids: ids.to_vec(),
        groups: groups.iter().map(|group| group.to_string()).collect(),
    }
}

#[test]
fn group_index_is_derived_from_the_dependency_index_alone() {
    let index = DependencyIndex::new();
    index.insert("a".to_string(), property(&[1], &["g"]));
    index.insert("b".to_string(), property(&[2, 3], &["g", "h", "g"]));
    let filed = build_group_index(&index);
    assert_eq!(filed.len(), 2);
    assert_eq!(names_in(&filed, "g"), vec!["a".to_string(), "b".to_string(), "b".to_string()]);
    assert_eq!(names_in(&filed, "h"), vec!["b".to_string()]);
    let under_h = filed.get("h").expect("the group has an entry");
    assert_eq!(under_h[0].properties.package_ids, vec![2, 3]);
    assert_eq!(
        under_h[0].properties.groups,
        vec!["g".to_string(), "h".to_string(), "g".to_string()]
    );
}

#[test]
fn eval_dependencies_does_not_read_the_ruleset() {
    let mut state = state();
    state.ruleset.groups.clear();
    state.dependency_index.insert("b".to_string(), property(&[1], &["g"]));
    let filed = eval_dependencies(&state).expect("the index is always built");
    assert_eq!(filed.len(), 1);
    assert_eq!(names_in(&filed, "g"), vec!["b".to_string()]);
}
