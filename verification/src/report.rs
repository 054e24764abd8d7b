//! What the evaluation of a rule yields.

use crate::manifest::Span;
use crate::package::Package;
use crate::ruleset::RuleSeverity;
use vstd::prelude::*;

verus! {

/// What was found out about one group that is implicated in a conflict.
#[derive(Debug)]
pub struct GroupCause {
    /// The name of the group.
    pub group: String,
    /// The causal path of the group: from a package of the group up to the
    /// declaration that pulled it in. `None` when the conflict cannot be
    /// attributed to a place in the manifest.
    pub path: Option<Vec<Package>>,
    /// The span of that declaration: the span of the last package of `path`.
    pub span: Option<Span>,
}

/// The span that a causal path points at: the span of its last package.
pub open spec fn anchor(path: Option<Seq<Package>>) -> Option<Span> {
    match path {
        Some(path) => if path.len() > 0 {
            path.last().span_in_manifest
        } else {
            None
        },
        None => None,
    }
}

/// A causal path as a sequence.
pub open spec fn trail_of(path: Option<Vec<Package>>) -> Option<Seq<Package>> {
    match path {
        Some(path) => Some(path@),
        None => None,
    }
}

impl GroupCause {
    /// The causal path as a sequence.
    pub open spec fn trail(&self) -> Option<Seq<Package>> {
        trail_of(self.path)
    }

    /// The span is the one that the path points at.
    pub open spec fn wf(&self) -> bool {
        self.span == anchor(self.trail())
    }

    /// The cause of `group` with the causal path `path`.
    pub fn new(group: String, path: Option<Vec<Package>>) -> (cause: GroupCause)
        ensures
            cause.group == group,
            cause.path == path,
            cause.wf(),
    {
        let span = match &path {
            Some(packages) => if packages.len() > 0 {
                packages[packages.len() - 1].span_in_manifest
            } else {
                None
            },
            None => None,
        };
        GroupCause { group, path, span }
    }
}

/// A rule that the graph violates.
#[derive(Debug)]
pub struct ConflictReport {
    pub rule_id: String,
    /// The reason that the rule gives.
    pub reason: String,
    pub severity: RuleSeverity,
    /// One cause for each implicated group, in the order of the rule's
    /// targets.
    pub causes: Vec<GroupCause>,
}

/// How the evaluation of one rule ended.
#[derive(Debug)]
pub enum RuleVerdict {
    /// None of the target groups is present in the graph.
    NoGroupFound,
    /// The graph obeys the rule.
    Satisfied,
    /// The graph violates the rule.
    Conflict(ConflictReport),
    /// The rule is of a type that has no evaluation yet.
    Unsupported,
}

impl RuleVerdict {
    /// The verdict is a conflict of fatal severity: one that fails the run.
    pub open spec fn fatal(&self) -> bool {
        self matches RuleVerdict::Conflict(report) && report.severity == RuleSeverity::Fatal
    }

    /// Whether the verdict is a conflict of fatal severity.
    pub fn is_fatal(&self) -> (fatal: bool)
        ensures
            fatal == self.fatal(),
    {
        match self {
            RuleVerdict::Conflict(report) => match report.severity {
                RuleSeverity::Fatal => true,
                _ => false,
            },
            _ => false,
        }
    }
}

/// The position of the first verdict that fails the run, if any does.
/// Conflicts of lesser severity are reported and do not fail the run.
pub fn first_fatal(verdicts: &Vec<RuleVerdict>) -> (found: Option<usize>)
    ensures
        found matches Some(at) ==> at < verdicts@.len() && verdicts@[at as int].fatal(),
        found matches Some(at) ==> forall|i: int| 0 <= i < at ==> !(#[trigger] verdicts@[i]).fatal(),
        found is None ==> forall|i: int|
            0 <= i < verdicts@.len() ==> !(#[trigger] verdicts@[i]).fatal(),
{
    let mut i: usize = 0;
    while i < verdicts.len()
        invariant
            i <= verdicts@.len(),
            forall|j: int| 0 <= j < i ==> !(#[trigger] verdicts@[j]).fatal(),
        decreases verdicts@.len() - i,
    {
        if verdicts[i].is_fatal() {
            return Some(i);
        }
        i += 1;
    }
    None
}

/// A span of the manifest with the group it is to be labelled with.
#[derive(Debug)]
pub struct Label {
    pub group: String,
    pub span: Span,
}

/// A conflict, ready to be rendered against the text of the manifest.
#[derive(Debug)]
pub struct Diagnostic {
    /// Where the manifest was read from.
    pub manifest_name: String,
    /// The text of the manifest.
    pub source: String,
    /// The reason that the rule gives.
    pub reason: String,
    /// One label for each implicated group that has a span.
    pub labels: Vec<Label>,
}

/// The labels of `causes`: one for each cause that has a span, in order.
pub open spec fn labels_of(causes: Seq<GroupCause>) -> Seq<(Seq<char>, Span)>
    decreases causes.len(),
{
    if causes.len() == 0 {
        Seq::empty()
    } else {
        labels_of(causes.drop_last()) + match causes.last().span {
            Some(span) => seq![(causes.last().group@, span)],
            None => Seq::empty(),
        }
    }
}

/// What each label stands for.
pub open spec fn label_views(labels: Seq<Label>) -> Seq<(Seq<char>, Span)> {
    Seq::new(labels.len(), |i: int| (labels[i].group@, labels[i].span))
}

/// Assembles the diagnostic of a conflict: the text of the manifest, the
/// reason of the rule, and a label for each implicated group that has a span.
pub fn assemble(manifest_name: &str, source: &str, report: &ConflictReport) -> (diagnostic:
    Diagnostic)
    ensures
        diagnostic.manifest_name@ == manifest_name@,
        diagnostic.source@ == source@,
        diagnostic.reason@ == report.reason@,
        label_views(diagnostic.labels@) == labels_of(report.causes@),
{
    let mut labels: Vec<Label> = Vec::new();
    let mut i: usize = 0;
    assert(label_views(labels@) =~= labels_of(report.causes@.take(0)));
    while i < report.causes.len()
        invariant
            i <= report.causes@.len(),
            label_views(labels@) == labels_of(report.causes@.take(i as int)),
        decreases report.causes@.len() - i,
    {
        let cause = &report.causes[i];
        let ghost before = label_views(labels@);
        proof {
            assert(report.causes@.take(i + 1).drop_last() =~= report.causes@.take(i as int));
            assert(report.causes@.take(i + 1).last() == cause);
        }
        match cause.span {
            Some(span) => {
                labels.push(Label { group: cause.group.clone(), span });
                assert(label_views(labels@) =~= before + seq![(cause.group@, span)]);
            },
            None => {
                assert(before + Seq::empty() =~= before);
            },
        }
        i += 1;
    }
    assert(report.causes@.take(report.causes@.len() as int) =~= report.causes@);
    Diagnostic {
        manifest_name: manifest_name.to_owned(),
        source: source.to_owned(),
        reason: report.reason.clone(),
        labels,
    }
}

/// Every cause that has a span is labelled with exactly that span.
pub proof fn lemma_labels_keep_spans(causes: Seq<GroupCause>, at: int)
    requires
        0 <= at < causes.len(),
        causes[at].span is Some,
    ensures
        labels_of(causes).contains((causes[at].group@, causes[at].span->0)),
    decreases causes.len(),
{
    let before = labels_of(causes.drop_last());
    let all = labels_of(causes);
    if at == causes.len() - 1 {
        assert(all[before.len() as int] == (causes[at].group@, causes[at].span->0));
    } else {
        lemma_labels_keep_spans(causes.drop_last(), at);
        let k = choose|k: int|
            0 <= k < before.len() && before[k] == (causes[at].group@, causes[at].span->0);
        assert(all[k] == before[k]);
    }
}

/// A group whose causal path ends at a package with the span `span` is
/// labelled with exactly `span`.
pub proof fn lemma_label_is_anchor(causes: Seq<GroupCause>, at: int, span: Span)
    requires
        0 <= at < causes.len(),
        causes[at].wf(),
        causes[at].path matches Some(path) && path@.len() > 0 && path@.last().span_in_manifest
            == Some(span),
    ensures
        labels_of(causes).contains((causes[at].group@, span)),
{
    lemma_labels_keep_spans(causes, at);
}

} // verus!
