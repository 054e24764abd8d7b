use conflict::manifest::{manifest_contains_dep, range_to_span, select_span, CargoManifest};

const TEXT: &str = "[package]\nname = \"demo\"\n\n[dependencies]\nserde = \"1\"\nshared = \"2\"\n\n[workspace.dependencies]\nshared = \"2\"\ntokio = \"1\"\n";

fn manifest() -> CargoManifest {
    CargoManifest::parse("Cargo.toml".to_string(), TEXT).expect("the text is valid TOML")
}

fn offset_of(needle: &str, occurrence: usize) -> usize {
    TEXT.match_indices(needle).nth(occurrence).expect("the needle occurs").0
}

#[test]
fn parse_keeps_path_and_text() {
    let manifest = manifest();
    assert_eq!(manifest.filepath, "Cargo.toml");
    assert_eq!(manifest.source(), TEXT);
}

#[test]
fn parse_rejects_broken_toml() {
    let broken = CargoManifest::parse("Cargo.toml".to_string(), "[dependencies\nserde = ");
    assert!(broken.is_err());
    let error = broken.err().expect("checked above");
    assert!(!error.message.is_empty());
}

#[test]
fn direct_dependency_is_located_at_its_key() {
    let manifest = manifest();
    assert_eq!(manifest.locate("serde"), Some((offset_of("serde", 0), 5)));
}

#[test]
fn workspace_dependency_is_located_at_its_key() {
    let manifest = manifest();
    assert_eq!(manifest.locate("tokio"), Some((offset_of("tokio", 0), 5)));
}

#[test]
fn workspace_key_takes_precedence_over_direct_key() {
    let manifest = manifest();
    let direct = offset_of("shared", 0);
    let workspace = offset_of("shared", 1);
    assert!(direct < workspace);
    assert_eq!(manifest.locate("shared"), Some((workspace, 6)));
}

#[test]
fn undeclared_name_has_no_span() {
    let manifest = manifest();
    assert_eq!(manifest.locate("openssl-sys"), None);
    assert_eq!(manifest.locate("name"), None);
    assert_eq!(manifest.locate("dependencies"), None);
}

#[test]
fn free_function_agrees_with_method() {
    let manifest = manifest();
    assert_eq!(manifest_contains_dep(&manifest.document, "serde"), manifest.locate("serde"));
    assert_eq!(manifest_contains_dep(&manifest.document, "absent"), None);
}

#[test]
fn manifest_without_dependency_tables_declares_nothing() {
    let manifest = CargoManifest::parse("Cargo.toml".to_string(), "[package]\nname = \"demo\"\n")
        .expect("the text is valid TOML");
    assert_eq!(manifest.locate("serde"), None);
}

#[test]
fn workspace_table_alone_is_enough() {
    let text = "[workspace.dependencies]\nserde = \"1\"\n";
    let manifest =
        CargoManifest::parse("Cargo.toml".to_string(), text).expect("the text is valid TOML");
    assert_eq!(manifest.locate("serde"), Some((25, 5)));
}

#[test]
fn inline_dependencies_are_no_table() {
    let text = "dependencies = { serde = \"1\" }\n";
    let manifest =
        CargoManifest::parse("Cargo.toml".to_string(), text).expect("the text is valid TOML");
    assert_eq!(manifest.locate("serde"), None);
}

#[test]
fn span_is_offset_and_length() {
    assert_eq!(range_to_span((10, 17)), (10, 7));
    assert_eq!(range_to_span((4, 4)), (4, 0));
    assert_eq!(range_to_span((9, 3)), (9, 0));
}

#[test]
fn selection_prefers_the_workspace_range() {
    assert_eq!(select_span(None, None), None);
    assert_eq!(select_span(Some((1, 4)), None), Some((1, 3)));
    assert_eq!(select_span(None, Some((20, 25))), Some((20, 5)));
    assert_eq!(select_span(Some((1, 4)), Some((20, 25))), Some((20, 5)));
}
