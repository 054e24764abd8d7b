use conflict::engine::{evaluate, evaluate_rule, explain_group};
use conflict::dependency::{build_dependency_index, Dependency, DependencyProperty};
use conflict::graph::{DependencyGraph, GraphNode};
use conflict::group::build_group_index;
use conflict::manifest::CargoManifest;
use conflict::report::RuleVerdict;
use conflict::ruleset::{Group, Rule, RuleScope, RuleSeverity, RuleState, RuleType, Ruleset};

const TEXT: &str = "[package]\nname = \"demo\"\n\n[dependencies]\ncrate-a = \"1\"\ncrate-b = \"1\"\n";

fn manifest() -> CargoManifest {
    CargoManifest::parse("Cargo.toml".to_string(), TEXT).expect("the text is valid TOML")
}

fn offset_of(needle: &str) -> usize {
    TEXT.find(needle).expect("the needle occurs")
}

fn node(name: &str, dependents: &[usize]) -> GraphNode {
    GraphNode { name: name.to_string(), version: "1.0.0".to_string(), dependents: dependents.to_vec() }
}

fn group(name: &str, members: &[&str]) -> Group {
    Group { name: name.to_string(), members: members.iter().map(|member| member.to_string()).collect() }
}

fn rule(kind: RuleType, targets: &[&str]) -> Rule {
    Rule {
        id: "ssl_provider".to_string(),
        name: "SSL provider".to_string(),
        _type: kind,
        targets: targets.iter().map(|target| target.to_string()).collect(),
        severity: RuleSeverity::Fatal,
        reason: "Only one SSL provider may be linked.".to_string(),
        scope: RuleScope::All,
        suggestion: None,
    }
}

fn ruleset(rules: Vec<Rule>) -> Ruleset {
    Ruleset {
        groups: vec![
            group("openssl", &["openssl-sys", "libssl-fips"]),
            group("boring", &["boring-sys"]),
            group("rustls", &["rustls"]),
            group("ring", &["ring"]),
        ],
        rules,
    }
}

/// 0 demo, 1 crate-a, 2 crate-b, 3 openssl-sys, 4 boring-sys, 5 ring
fn both_providers() -> DependencyGraph {
    DependencyGraph {
        nodes: vec![
            node("demo", &[]),
            node("crate-a", &[0]),
            node("crate-b", &[0]),
            node("openssl-sys", &[1]),
            node("boring-sys", &[2]),
            node("ring", &[4]),
        ],
    }
}

fn only_openssl() -> DependencyGraph {
    DependencyGraph {
        nodes: vec![node("demo", &[]), node("crate-a", &[0]), node("openssl-sys", &[1])],
    }
}

fn ids(path: &Option<Vec<conflict::package::Package>>) -> Option<Vec<usize>> {
    path.as_ref().map(|path| path.iter().map(|package| package.id).collect())
}

#[test]
fn only_conflict_is_conflict() {
    assert!(RuleState::Conflict.is_conflict());
    assert!(!RuleState::NoConflict.is_conflict());
    assert!(!RuleState::NoGroupFound.is_conflict());
}

#[test]
fn state_machine_follows_the_table() {
    assert_eq!(RuleState::NoGroupFound.advance(true), RuleState::NoConflict);
    assert_eq!(RuleState::NoGroupFound.advance(false), RuleState::NoGroupFound);
    assert_eq!(RuleState::NoConflict.advance(true), RuleState::Conflict);
    assert_eq!(RuleState::NoConflict.advance(false), RuleState::NoConflict);
    assert_eq!(RuleState::Conflict.advance(true), RuleState::Conflict);
    assert_eq!(RuleState::Conflict.advance(false), RuleState::Conflict);
}

#[test]
fn two_providers_are_one_conflict() {
    let manifest = manifest();
    let graph = both_providers();
    let ruleset = ruleset(vec![rule(RuleType::OneOf, &["openssl", "boring"])]);
    let verdicts = evaluate(&ruleset, &graph, &manifest);
    assert_eq!(verdicts.len(), 1);
    let report = match &verdicts[0] {
        RuleVerdict::Conflict(report) => report,
        other => panic!("expected a conflict, got {:?}", other),
    };
    assert_eq!(report.rule_id, "ssl_provider");
    assert_eq!(report.reason, "Only one SSL provider may be linked.");
    assert_eq!(report.severity, RuleSeverity::Fatal);
    assert_eq!(report.causes.len(), 2);
    assert_eq!(report.causes[0].group, "openssl");
    assert_eq!(report.causes[0].span, Some((offset_of("crate-a"), 7)));
    assert_eq!(ids(&report.causes[0].path), Some(vec![3, 1]));
    assert_eq!(report.causes[1].group, "boring");
    assert_eq!(report.causes[1].span, Some((offset_of("crate-b"), 7)));
    assert_eq!(ids(&report.causes[1].path), Some(vec![4, 2]));
}

#[test]
fn one_provider_is_no_conflict() {
    let manifest = manifest();
    let graph = only_openssl();
    let ruleset = ruleset(vec![rule(RuleType::OneOf, &["openssl", "boring"])]);
    let verdicts = evaluate(&ruleset, &graph, &manifest);
    assert_eq!(verdicts.len(), 1);
    assert!(matches!(verdicts[0], RuleVerdict::Satisfied));
}

#[test]
fn no_provider_is_no_group_found() {
    let manifest = manifest();
    let graph = DependencyGraph { nodes: vec![node("demo", &[]), node("crate-a", &[0])] };
    let ruleset = ruleset(vec![rule(RuleType::OneOf, &["openssl", "boring"])]);
    let verdicts = evaluate(&ruleset, &graph, &manifest);
    assert!(matches!(verdicts[0], RuleVerdict::NoGroupFound));
}

#[test]
fn rule_without_targets_finds_no_group() {
    let manifest = manifest();
    let graph = both_providers();
    let ruleset = ruleset(vec![rule(RuleType::OneOf, &[])]);
    let verdicts = evaluate(&ruleset, &graph, &manifest);
    assert!(matches!(verdicts[0], RuleVerdict::NoGroupFound));
}

#[test]
fn undeclared_group_counts_as_absent() {
    let manifest = manifest();
    let graph = both_providers();
    let ruleset = ruleset(vec![rule(RuleType::OneOf, &["unknown", "openssl", "rustls"])]);
    let verdicts = evaluate(&ruleset, &graph, &manifest);
    assert!(matches!(verdicts[0], RuleVerdict::Satisfied));
}

#[test]
fn third_present_group_is_not_implicated() {
    let manifest = manifest();
    let graph = both_providers();
    let ruleset = ruleset(vec![rule(RuleType::OneOf, &["rustls", "boring", "openssl", "ring"])]);
    let verdicts = evaluate(&ruleset, &graph, &manifest);
    let report = match &verdicts[0] {
        RuleVerdict::Conflict(report) => report,
        other => panic!("expected a conflict, got {:?}", other),
    };
    assert_eq!(report.causes.len(), 2);
    assert_eq!(report.causes[0].group, "boring");
    assert_eq!(report.causes[1].group, "openssl");
}

#[test]
fn other_rule_types_are_unsupported() {
    let manifest = manifest();
    let graph = both_providers();
    let kinds = vec![RuleType::AtLeastOne, RuleType::AtMostOne, RuleType::Requires, RuleType::Forbids];
    for kind in kinds {
        let ruleset = ruleset(vec![rule(kind, &["openssl", "boring"])]);
        let verdicts = evaluate(&ruleset, &graph, &manifest);
        assert!(matches!(verdicts[0], RuleVerdict::Unsupported));
    }
}

#[test]
fn unsupported_rule_does_not_stop_the_rules_after_it() {
    let manifest = manifest();
    let graph = both_providers();
    let ruleset = ruleset(vec![
        rule(RuleType::Forbids, &["openssl"]),
        rule(RuleType::OneOf, &["openssl", "boring"]),
        rule(RuleType::OneOf, &["openssl", "rustls"]),
    ]);
    let verdicts = evaluate(&ruleset, &graph, &manifest);
    assert_eq!(verdicts.len(), 3);
    assert!(matches!(verdicts[0], RuleVerdict::Unsupported));
    assert!(matches!(verdicts[1], RuleVerdict::Conflict(_)));
    assert!(matches!(verdicts[2], RuleVerdict::Satisfied));
}

#[test]
fn absent_member_does_not_change_the_outcome() {
    let manifest = manifest();
    let graph = only_openssl();
    let with_stale = ruleset(vec![rule(RuleType::OneOf, &["openssl", "boring"])]);
    let mut without_stale = ruleset(vec![rule(RuleType::OneOf, &["openssl", "boring"])]);
    without_stale.groups[0] = group("openssl", &["openssl-sys"]);
    assert!(matches!(evaluate(&with_stale, &graph, &manifest)[0], RuleVerdict::Satisfied));
    assert!(matches!(evaluate(&without_stale, &graph, &manifest)[0], RuleVerdict::Satisfied));
}

#[test]
fn conflict_without_declaration_has_no_span() {
    let manifest = CargoManifest::parse("Cargo.toml".to_string(), "[package]\nname = \"demo\"\n")
        .expect("the text is valid TOML");
    let graph = both_providers();
    let ruleset = ruleset(vec![rule(RuleType::OneOf, &["openssl", "boring"])]);
    let verdicts = evaluate(&ruleset, &graph, &manifest);
    let report = match &verdicts[0] {
        RuleVerdict::Conflict(report) => report,
        other => panic!("expected a conflict, got {:?}", other),
    };
    assert_eq!(report.causes.len(), 2);
    assert!(report.causes[0].path.is_none());
    assert!(report.causes[0].span.is_none());
    assert!(report.causes[1].path.is_none());
}

#[test]
fn rule_is_evaluated_against_a_given_group_index() {
    let manifest = manifest();
    let graph = both_providers();
    let ruleset = ruleset(vec![]);
    let dependencies = build_dependency_index(&ruleset.groups, &graph.nodes);
    let groups = build_group_index(&dependencies);
    let verdict = evaluate_rule(
        &rule(RuleType::OneOf, &["ring", "openssl"]),
        &groups,
        &graph,
        &manifest.document,
    );
    let report = match verdict {
        RuleVerdict::Conflict(report) => report,
        other => panic!("expected a conflict, got {:?}", other),
    };
    assert_eq!(report.causes[0].group, "ring");
    assert_eq!(ids(&report.causes[0].path), Some(vec![5, 4, 2]));
    assert_eq!(report.causes[0].span, Some((offset_of("crate-b"), 7)));
}

#[test]
fn group_is_explained_by_its_last_traceable_dependency() {
    let manifest = manifest();
    let graph = both_providers();
    let mut first = DependencyProperty::new("mixed");
    first.insert_package(3);
    let mut second = DependencyProperty::new("mixed");
    second.insert_package(4);
    let mut untraceable = DependencyProperty::new("mixed");
    untraceable.insert_package(0);
    let dependencies = vec![
        Dependency::new("openssl-sys", first),
        Dependency::new("boring-sys", second),
        Dependency::new("demo", untraceable),
    ];
    let path = explain_group(&manifest.document, &graph, &dependencies);
    assert_eq!(ids(&path), Some(vec![4, 2]));
    assert!(explain_group(&manifest.document, &graph, &vec![]).is_none());
}

#[test]
fn ruleset_is_well_formed_when_group_names_differ() {
    assert!(ruleset(vec![]).is_well_formed());
    assert!(Ruleset { groups: vec![], rules: vec![] }.is_well_formed());
    let doubled = Ruleset {
        groups: vec![group("ssl", &["openssl-sys"]), group("tls", &[]), group("ssl", &[])],
        rules: vec![],
    };
    assert!(!doubled.is_well_formed());
}
