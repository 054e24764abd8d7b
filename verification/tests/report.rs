use conflict::error::{find_span, Error, SslProviderConflict};
use conflict::package::Package;
use conflict::report::{assemble, first_fatal, ConflictReport, GroupCause, Label, RuleVerdict};
use conflict::ruleset::RuleSeverity;

fn report(causes: Vec<GroupCause>) -> ConflictReport {
    ConflictReport {
        rule_id: "ssl_provider".to_string(),
        reason: "Only one SSL provider may be linked.".to_string(),
        severity: RuleSeverity::Fatal,
        causes,
    }
}

fn cause(group: &str, span: Option<(usize, usize)>) -> GroupCause {
    let path = vec![Package::new(9, None), Package::new(4, span)];
    GroupCause::new(group.to_string(), Some(path))
}

#[test]
fn cause_points_at_the_last_package_of_its_path() {
    let found = cause("openssl", Some((42, 7)));
    assert_eq!(found.group, "openssl");
    assert_eq!(found.span, Some((42, 7)));
    assert_eq!(found.path.as_ref().map(|path| path.len()), Some(2));
}

#[test]
fn cause_without_path_has_no_span() {
    let found = GroupCause::new("openssl".to_string(), None);
    assert!(found.path.is_none());
    assert!(found.span.is_none());
    let empty = GroupCause::new("openssl".to_string(), Some(vec![]));
    assert!(empty.span.is_none());
}

#[test]
fn diagnostic_reports_exactly_the_span_of_the_path() {
    let report = report(vec![cause("openssl", Some((42, 7))), cause("boring", Some((60, 9)))]);
    let diagnostic = assemble("Cargo.toml", "the text", &report);
    assert_eq!(diagnostic.manifest_name, "Cargo.toml");
    assert_eq!(diagnostic.source, "the text");
    assert_eq!(diagnostic.reason, "Only one SSL provider may be linked.");
    assert_eq!(diagnostic.labels.len(), 2);
    assert_eq!(diagnostic.labels[0].group, "openssl");
    assert_eq!(diagnostic.labels[0].span, (42, 7));
    assert_eq!(diagnostic.labels[1].group, "boring");
    assert_eq!(diagnostic.labels[1].span, (60, 9));
}

#[test]
fn diagnostic_has_no_label_for_a_cause_without_span() {
    let report = report(vec![
        GroupCause::new("openssl".to_string(), None),
        cause("boring", Some((60, 9))),
        cause("rustls", None),
    ]);
    let diagnostic = assemble("Cargo.toml", "the text", &report);
    assert_eq!(diagnostic.labels.len(), 1);
    assert_eq!(diagnostic.labels[0].group, "boring");
}

#[test]
fn first_label_of_a_group_is_found() {
    let labels = vec![
        Label { group: "boring".to_string(), span: (1, 2) },
        Label { group: "openssl".to_string(), span: (3, 4) },
        Label { group: "boring".to_string(), span: (5, 6) },
    ];
    assert_eq!(find_span(&labels, &"boring".to_string()), Some((1, 2)));
    assert_eq!(find_span(&labels, &"openssl".to_string()), Some((3, 4)));
    assert_eq!(find_span(&labels, &"rustls".to_string()), None);
    assert_eq!(find_span(&vec![], &"boring".to_string()), None);
}

#[test]
fn ssl_conflict_takes_both_provider_spans() {
    let report = report(vec![cause("boring", Some((60, 9))), cause("openssl", Some((42, 7)))]);
    let diagnostic = assemble("Cargo.toml", "the text", &report);
    let conflict = SslProviderConflict::from_diagnostic(&diagnostic).expect("both labels exist");
    assert_eq!(conflict.manifest_name, "Cargo.toml");
    assert_eq!(conflict.manifest, "the text");
    assert_eq!(conflict.openssl_span, (42, 7));
    assert_eq!(conflict.boringssl_span, (60, 9));
    let error = Error::SSLConflict(conflict);
    assert!(matches!(error, Error::SSLConflict(_)));
}

#[test]
fn ssl_conflict_needs_both_providers() {
    let report = report(vec![cause("openssl", Some((42, 7))), cause("rustls", Some((60, 9)))]);
    let diagnostic = assemble("Cargo.toml", "the text", &report);
    assert!(SslProviderConflict::from_diagnostic(&diagnostic).is_none());
    let unattributed =
        assemble("Cargo.toml", "the text", &self::report(vec![cause("openssl", None), cause("boring", Some((1, 1)))]));
    assert!(SslProviderConflict::from_diagnostic(&unattributed).is_none());
}

fn conflict(severity: RuleSeverity) -> RuleVerdict {
    let mut found = report(vec![]);
    found.severity = severity;
    RuleVerdict::Conflict(found)
}

#[test]
fn only_fatal_conflicts_fail_the_run() {
    assert!(conflict(RuleSeverity::Fatal).is_fatal());
    assert!(!conflict(RuleSeverity::Warning).is_fatal());
    assert!(!conflict(RuleSeverity::Info).is_fatal());
    assert!(!RuleVerdict::Satisfied.is_fatal());
    assert!(!RuleVerdict::NoGroupFound.is_fatal());
    assert!(!RuleVerdict::Unsupported.is_fatal());
}

#[test]
fn first_fatal_conflict_is_found() {
    let verdicts = vec![
        RuleVerdict::Satisfied,
        conflict(RuleSeverity::Warning),
        conflict(RuleSeverity::Fatal),
        conflict(RuleSeverity::Fatal),
    ];
    assert_eq!(first_fatal(&verdicts), Some(2));
    assert_eq!(first_fatal(&vec![conflict(RuleSeverity::Info), RuleVerdict::Unsupported]), None);
    assert_eq!(first_fatal(&vec![]), None);
}
