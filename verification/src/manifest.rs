//! The manifest and the byte spans of the dependency names declared in it.

use toml_edit::{Document, TomlError};
use vstd::prelude::*;

verus! {

/// `toml_edit::Document`: a parsed TOML document that keeps the text it was
/// parsed from and the position of every key. Nothing of its inside is
/// visible to the proofs.
#[verifier::external_type_specification]
#[verifier::external_body]
#[verifier::reject_recursive_types(S)]
pub struct ExDocument<S>(Document<S>);

/// `toml_edit::TomlError`: why a text is no TOML document.
#[verifier::external_type_specification]
#[verifier::external_body]
pub struct ExTomlError(TomlError);

/// A half-open byte range `(start, end)` of the manifest text.
pub type ByteRange = (usize, usize);

/// A byte span `(offset, length)` of the manifest text.
pub type Span = (usize, usize);

/// The keys of a table, each with the byte range of its key token.
pub type KeyRanges = Map<Seq<char>, ByteRange>;

/// Whether `toml_edit` accepts `text` as a TOML document.
pub uninterp spec fn is_toml(text: Seq<char>) -> bool;

/// The text that `document` was parsed from.
pub uninterp spec fn document_text(document: &Document<String>) -> Seq<char>;

/// The keys of the table that `document` holds under `table` that carry a
/// position, each with the byte range of the key token. Empty where `table`
/// is missing or is no table.
pub uninterp spec fn table_keys(document: &Document<String>, table: Seq<char>) -> KeyRanges;

/// The keys of the table that `document` holds under `outer`, then `table`,
/// that carry a position, each with the byte range of the key token. Empty
/// where either is missing or what stands under `table` is no table.
pub uninterp spec fn nested_table_keys(
    document: &Document<String>,
    outer: Seq<char>,
    table: Seq<char>,
) -> KeyRanges;

/// The keys of the `[dependencies]` table of `document`.
pub open spec fn dependency_keys(document: &Document<String>) -> KeyRanges {
    table_keys(document, "dependencies"@)
}

/// The keys of the `[workspace.dependencies]` table of `document`.
pub open spec fn workspace_dependency_keys(document: &Document<String>) -> KeyRanges {
    nested_table_keys(document, "workspace"@, "dependencies"@)
}

/// The entry of `keys` under `name`, if there is one.
pub open spec fn key_range(keys: KeyRanges, name: Seq<char>) -> Option<ByteRange> {
    if keys.contains_key(name) {
        Some(keys[name])
    } else {
        None
    }
}

/// `Document::parse` on an owned copy of `text`. The contract claims that the
/// outcome depends on the text alone, and that a parsed document keeps the
/// text it was parsed from.
#[verifier::external_body]
fn parse_document(text: &str) -> (parsed: Result<Document<String>, TomlError>)
    ensures
        parsed is Ok <==> is_toml(text@),
        parsed matches Ok(document) ==> document_text(&document) == text@,
{
    Document::parse(text.to_owned())
}

/// `TomlError::message`, copied into a `String`. Nothing is claimed of it.
#[verifier::external_body]
fn parse_error_message(error: &TomlError) -> String {
    error.message().to_owned()
}

/// `Document::raw`, copied into a `String`.
#[verifier::external_body]
fn raw_text(document: &Document<String>) -> (text: String)
    ensures
        text@ == document_text(document),
{
    document.raw().to_owned()
}

/// `Table::key` on the table under `table` (`Table::get`, then
/// `Item::as_table`), then `Key::span`. `None` where any of the four finds
/// nothing.
#[verifier::external_body]
fn table_key_range(document: &Document<String>, table: &str, name: &str) -> (range: Option<
    ByteRange,
>)
    ensures
        range == key_range(table_keys(document, table@), name@),
{
    let found = document.get(table).and_then(|item| item.as_table());
    let span = found.and_then(|found| found.key(name)).and_then(|key| key.span());
    span.map(|span| (span.start, span.end))
}

/// `Table::key` on the table under `outer`, then `table` (`Table::get`,
/// `Item::get`, then `Item::as_table`), then `Key::span`. `None` where any of
/// the five finds nothing.
#[verifier::external_body]
fn nested_table_key_range(
    document: &Document<String>,
    outer: &str,
    table: &str,
    name: &str,
) -> (range: Option<ByteRange>)
    ensures
        range == key_range(nested_table_keys(document, outer@, table@), name@),
{
    let item = document.get(outer).and_then(|inner| inner.get(table));
    let span = item.and_then(|item| item.as_table()).and_then(|found| found.key(name)).and_then(
        |key| key.span(),
    );
    span.map(|span| (span.start, span.end))
}

/// Why a manifest could not be read.
#[derive(Debug)]
pub struct ManifestError {
    /// What the parser reported.
    pub message: String,
}

/// The manifest of the workspace under inspection.
pub struct CargoManifest {
    /// Where the manifest was read from.
    pub filepath: String,
    /// The parsed manifest, with the position of every key.
    pub document: Document<String>,
}

/// The span `(offset, length)` of a byte range; an inverted range has length 0.
pub open spec fn span_of_range(range: ByteRange) -> Span {
    (
        range.0,
        if range.1 >= range.0 {
            (range.1 - range.0) as usize
        } else {
            0
        },
    )
}

/// The span that points at `name` given what the two dependency tables hold
/// under it: the workspace-level key where there is one, else the direct key.
pub open spec fn choose_span(direct: Option<ByteRange>, workspace: Option<ByteRange>) -> Option<
    Span,
> {
    match (direct, workspace) {
        (_, Some(range)) => Some(span_of_range(range)),
        (Some(range), None) => Some(span_of_range(range)),
        (None, None) => None,
    }
}

/// The span of the declaration of `name` in `document`, if the user wrote one.
pub open spec fn declared_span(document: &Document<String>, name: Seq<char>) -> Option<Span> {
    choose_span(
        key_range(dependency_keys(document), name),
        key_range(workspace_dependency_keys(document), name),
    )
}

/// Turns a byte range into offset and length.
pub fn range_to_span(range: ByteRange) -> (span: Span)
    ensures
        span == span_of_range(range),
{
    if range.1 >= range.0 {
        (range.0, range.1 - range.0)
    } else {
        (range.0, 0)
    }
}

/// Picks the span to report for a name from the key ranges found in the direct
/// and in the workspace-level dependency table. The workspace-level key takes
/// precedence; a name in neither table has no span.
pub fn select_span(direct: Option<ByteRange>, workspace: Option<ByteRange>) -> (span: Option<Span>)
    ensures
        span == choose_span(direct, workspace),
{
    match workspace {
        Some(range) => Some(range_to_span(range)),
        None => match direct {
            Some(range) => Some(range_to_span(range)),
            None => None,
        },
    }
}

/// The span of the key that declares `name` as a dependency, or `None` when
/// the manifest does not name it and it can only be present transitively.
pub fn manifest_contains_dep(manifest: &Document<String>, name: &str) -> (span: Option<Span>)
    ensures
        span == declared_span(manifest, name@),
{
    let direct = table_key_range(manifest, "dependencies", name);
    let workspace = nested_table_key_range(manifest, "workspace", "dependencies", name);
    select_span(direct, workspace)
}

impl CargoManifest {
    /// The text of the manifest.
    pub open spec fn text(&self) -> Seq<char> {
        document_text(&self.document)
    }

    /// The span of the declaration of `name`, if the user wrote one.
    pub open spec fn span_of(&self, name: Seq<char>) -> Option<Span> {
        declared_span(&self.document, name)
    }

    /// Parses the text of a manifest read from `filepath`.
    pub fn parse(filepath: String, text: &str) -> (parsed: Result<CargoManifest, ManifestError>)
        ensures
            parsed is Ok <==> is_toml(text@),
            parsed matches Ok(manifest) ==> manifest.filepath == filepath && manifest.text()
                == text@,
    {
        match parse_document(text) {
            Ok(document) => Ok(CargoManifest { filepath, document }),
            Err(error) => Err(ManifestError { message: parse_error_message(&error) }),
        }
    }

    /// The text the manifest was parsed from.
    pub fn source(&self) -> (text: String)
        ensures
            text@ == self.text(),
    {
        raw_text(&self.document)
    }

    /// The span of the key that declares `name` as a dependency.
    pub fn locate(&self, name: &str) -> (span: Option<Span>)
        ensures
            span == self.span_of(name@),
    {
        manifest_contains_dep(&self.document, name)
    }
}

} // verus!
