use conflict::cli::Cli;

#[test]
fn ruleset_path_defaults_to_the_root_of_the_workspace() {
    let defaults = Cli { ruleset_file: None, workspace: None };
    assert_eq!(defaults.ruleset_path("/work/demo"), "/work/demo/conflict.toml");
    let asked = Cli {
        ruleset_file: Some("rules/strict.toml".to_string()),
        workspace: Some("/work/demo".to_string()),
    };
    assert_eq!(asked.ruleset_path("/work/demo"), "rules/strict.toml");
    assert_eq!(Cli::manifest_path("/work/demo"), "/work/demo/Cargo.toml");
}
