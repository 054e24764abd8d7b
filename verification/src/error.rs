//! The failure that a run ends with.

use crate::manifest::Span;
use crate::report::{label_views, Diagnostic, Label};
use vstd::prelude::*;

verus! {

/// The conflict between the two providers of SSL: both the group `openssl`
/// and the group `boring` are in the graph.
#[derive(Debug)]
pub struct SslProviderConflict {
    /// Where the manifest was read from.
    pub manifest_name: String,
    /// The text of the manifest.
    pub manifest: String,
    /// The declaration that pulls in OpenSSL.
    pub openssl_span: Span,
    /// The declaration that pulls in BoringSSL.
    pub boringssl_span: Span,
}

#[derive(Debug)]
pub enum Error {
    SSLConflict(SslProviderConflict),
}

/// The span of the first of `labels` that is for `group`.
pub open spec fn first_span(labels: Seq<(Seq<char>, Span)>, group: Seq<char>) -> Option<Span>
    decreases labels.len(),
{
    if labels.len() == 0 {
        None
    } else if labels[0].0 == group {
        Some(labels[0].1)
    } else {
        first_span(labels.drop_first(), group)
    }
}

/// The span of the first of `labels` that is for `group`.
pub fn find_span(labels: &Vec<Label>, group: &String) -> (found: Option<Span>)
    ensures
        found == first_span(label_views(labels@), group@),
{
    let mut i: usize = 0;
    assert(label_views(labels@).skip(0) =~= label_views(labels@));
    while i < labels.len()
        invariant
            i <= labels@.len(),
            first_span(label_views(labels@), group@) == first_span(
                label_views(labels@).skip(i as int),
                group@,
            ),
        decreases labels@.len() - i,
    {
        assert(label_views(labels@).skip(i as int)[0] == label_views(labels@)[i as int]);
        assert(label_views(labels@).skip(i as int).drop_first() =~= label_views(labels@).skip(
            i + 1,
        ));
        if labels[i].group == *group {
            return Some(labels[i].span);
        }
        i += 1;
    }
    None
}

impl SslProviderConflict {
    /// The conflict between the two providers of SSL, if `diagnostic` is one:
    /// it needs a label for the group `openssl` and one for the group
    /// `boring`.
    pub fn from_diagnostic(diagnostic: &Diagnostic) -> (conflict: Option<SslProviderConflict>)
        ensures
            conflict is Some <==> first_span(label_views(diagnostic.labels@), "openssl"@) is Some
                && first_span(label_views(diagnostic.labels@), "boring"@) is Some,
            conflict matches Some(found) ==> {
                &&& found.manifest_name@ == diagnostic.manifest_name@
                &&& found.manifest@ == diagnostic.source@
                &&& Some(found.openssl_span) == first_span(
                    label_views(diagnostic.labels@),
                    "openssl"@,
                )
                &&& Some(found.boringssl_span) == first_span(
                    label_views(diagnostic.labels@),
                    "boring"@,
                )
            },
    {
        let openssl = find_span(&diagnostic.labels, &"openssl".to_owned());
        let boring = find_span(&diagnostic.labels, &"boring".to_owned());
        match (openssl, boring) {
            (Some(openssl_span), Some(boringssl_span)) => Some(
                SslProviderConflict {
                    manifest_name: diagnostic.manifest_name.clone(),
                    manifest: diagnostic.source.clone(),
                    openssl_span,
                    boringssl_span,
                },
            ),
            _ => None,
        }
    }
}

} // verus!
