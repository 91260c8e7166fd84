use rinkaku::cli::{Cli, CliError, DepsScope, Format};
use rinkaku::render::OutputFormat;

fn cli(
    base: Option<&str>,
    head: &str,
    pr: Option<&str>,
    format: Option<Format>,
    tui: bool,
    deps: u8,
) -> Cli {
    Cli {
        base: base.map(|s| s.to_string()),
        head: head.to_string(),
        pr: pr.map(|s| s.to_string()),
        format,
        deps,
        deps_scope: DepsScope::ChangedProjects,
        no_deps_cache: false,
        exclude_tests: false,
        include_generated: false,
        entry: None,
        tui,
    }
}

#[test]
fn should_default_to_markdown_head_and_no_base_when_no_args_given() {
    let expected = cli(None, "HEAD", None, None, false, 1);
    let actual = Cli::parse_from(&["rinkaku"]);

    assert_eq!(expected, actual);
}

#[test]
fn should_set_tui_when_tui_flag_given() {
    let expected = cli(None, "HEAD", None, None, true, 1);
    let actual = Cli::parse_from(&["rinkaku", "--tui"]);

    assert_eq!(expected, actual);
}

#[test]
fn should_reject_tui_and_format_given_together() {
    let actual = Cli::try_parse_from(&["rinkaku", "--tui", "--format", "json"]);

    assert!(actual.is_err());
}

#[test]
fn should_reject_format_and_tui_given_together_regardless_of_argument_order() {
    let actual = Cli::try_parse_from(&["rinkaku", "--format", "json", "--tui"]);

    assert!(actual.is_err());
}

#[test]
fn should_set_base_when_base_flag_given() {
    let expected = cli(Some("main"), "HEAD", None, None, false, 1);
    let actual = Cli::parse_from(&["rinkaku", "--base", "main"]);

    assert_eq!(expected, actual);
}

#[test]
fn should_set_base_and_head_when_both_flags_given() {
    let expected = cli(Some("main"), "feature-branch", None, None, false, 1);
    let actual = Cli::parse_from(&["rinkaku", "--base", "main", "--head", "feature-branch"]);

    assert_eq!(expected, actual);
}

#[test]
fn should_set_format_json_when_format_flag_given() {
    let expected = cli(None, "HEAD", None, Some(Format::Json), false, 1);
    let actual = Cli::parse_from(&["rinkaku", "--format", "json"]);

    assert_eq!(expected, actual);
}

#[test]
fn should_reject_unknown_format_value() {
    let actual = Cli::try_parse_from(&["rinkaku", "--format", "yaml"]);

    assert!(actual.is_err());
}

#[test]
fn should_set_deps_zero_when_deps_flag_given() {
    let expected = cli(None, "HEAD", None, None, false, 0);
    let actual = Cli::parse_from(&["rinkaku", "--deps", "0"]);

    assert_eq!(expected, actual);
}

#[test]
fn should_reject_deps_value_outside_zero_or_one() {
    let actual = Cli::try_parse_from(&["rinkaku", "--deps", "2"]);

    assert!(actual.is_err());
}

#[test]
fn should_set_exclude_tests_when_exclude_tests_flag_given() {
    let mut expected = cli(None, "HEAD", None, None, false, 1);
    expected.exclude_tests = true;
    let actual = Cli::parse_from(&["rinkaku", "--exclude-tests"]);

    assert_eq!(expected, actual);
}

#[test]
fn should_default_to_including_tests_when_no_flag_given() {
    let actual = Cli::parse_from(&["rinkaku"]);

    assert!(!actual.exclude_tests);
}

#[test]
fn should_reject_the_removed_include_tests_flag() {
    let actual = Cli::try_parse_from(&["rinkaku", "--include-tests"]);

    assert!(actual.is_err());
}

#[test]
fn should_set_include_generated_when_include_generated_flag_given() {
    let mut expected = cli(None, "HEAD", None, None, false, 1);
    expected.include_generated = true;
    let actual = Cli::parse_from(&["rinkaku", "--include-generated"]);

    assert_eq!(expected, actual);
}

#[test]
fn should_set_entry_when_entry_flag_given() {
    let mut expected = cli(None, "HEAD", None, None, false, 1);
    expected.entry = Some("src/api".to_string());
    let actual = Cli::parse_from(&["rinkaku", "--entry", "src/api"]);

    assert_eq!(expected, actual);
}

#[test]
fn should_set_pr_when_pr_flag_given() {
    let expected = cli(None, "HEAD", Some("76"), None, false, 1);
    let actual = Cli::parse_from(&["rinkaku", "--pr", "76"]);

    assert_eq!(expected, actual);
}

#[test]
fn should_reject_pr_and_base_together() {
    let actual = Cli::try_parse_from(&["rinkaku", "--pr", "76", "--base", "main"]);

    assert!(actual.is_err());
}

#[test]
fn should_reject_pr_and_explicit_head_together() {
    let actual = Cli::try_parse_from(&["rinkaku", "--pr", "76", "--head", "feature-branch"]);

    assert!(actual.is_err());
}

#[test]
fn should_accept_an_inline_value_after_an_equals_sign() {
    let expected = cli(Some("main"), "HEAD", None, None, false, 1);

    assert_eq!(Ok(expected), Cli::try_parse_from(&["rinkaku", "--base=main"]));
}

#[test]
fn should_accept_an_empty_inline_value() {
    let expected = cli(Some(""), "HEAD", None, None, false, 1);

    assert_eq!(Ok(expected), Cli::try_parse_from(&["rinkaku", "--base="]));
}

#[test]
fn should_set_deps_scope_repo_and_no_deps_cache() {
    let mut expected = cli(None, "HEAD", None, None, false, 1);
    expected.deps_scope = DepsScope::Repo;
    expected.no_deps_cache = true;
    let actual = Cli::try_parse_from(&["rinkaku", "--deps-scope", "repo", "--no-deps-cache"]);

    assert_eq!(Ok(expected), actual);
}

#[test]
fn should_reject_unknown_deps_scope_value() {
    let actual = Cli::try_parse_from(&["rinkaku", "--deps-scope", "workspace"]);

    assert_eq!(Err(CliError::InvalidValue), actual);
}

#[test]
fn should_accept_signed_deps_values_inside_the_range() {
    assert_eq!(1, Cli::parse_from(&["rinkaku", "--deps", "+1"]).deps);
    assert_eq!(0, Cli::parse_from(&["rinkaku", "--deps=-0"]).deps);
    assert_eq!(1, Cli::parse_from(&["rinkaku", "--deps", "0001"]).deps);
}

#[test]
fn should_reject_deps_values_that_are_not_integers() {
    assert_eq!(Err(CliError::InvalidValue), Cli::try_parse_from(&["rinkaku", "--deps=x"]));
    assert_eq!(Err(CliError::InvalidValue), Cli::try_parse_from(&["rinkaku", "--deps="]));
    assert_eq!(Err(CliError::InvalidValue), Cli::try_parse_from(&["rinkaku", "--deps=-1"]));
    assert_eq!(Err(CliError::InvalidValue), Cli::try_parse_from(&["rinkaku", "--deps", "10"]));
}

#[test]
fn should_reject_a_repeated_option() {
    let actual = Cli::try_parse_from(&["rinkaku", "--base", "a", "--base", "b"]);

    assert_eq!(Err(CliError::ArgumentConflict), actual);
}

#[test]
fn should_reject_a_repeated_switch() {
    let actual = Cli::try_parse_from(&["rinkaku", "--tui", "--tui"]);

    assert_eq!(Err(CliError::ArgumentConflict), actual);
}

#[test]
fn should_reject_a_missing_value() {
    assert_eq!(Err(CliError::MissingValue), Cli::try_parse_from(&["rinkaku", "--base"]));
    assert_eq!(Err(CliError::MissingValue), Cli::try_parse_from(&["rinkaku", "--base", "--tui"]));
}

#[test]
fn should_take_a_lone_dash_as_a_value() {
    assert_eq!(Some("-".to_string()), Cli::parse_from(&["rinkaku", "--entry", "-"]).entry);
}

#[test]
fn should_reject_a_value_given_to_a_switch() {
    assert_eq!(Err(CliError::UnexpectedValue), Cli::try_parse_from(&["rinkaku", "--tui=true"]));
}

#[test]
fn should_reject_positional_arguments() {
    assert_eq!(Err(CliError::UnknownArgument), Cli::try_parse_from(&["rinkaku", "main"]));
    assert_eq!(Err(CliError::UnknownArgument), Cli::try_parse_from(&["rinkaku", "--", "main"]));
    assert_eq!(Err(CliError::UnknownArgument), Cli::try_parse_from(&["rinkaku", "-x"]));
}

#[test]
fn should_accept_a_final_double_dash() {
    let expected = cli(None, "HEAD", None, None, true, 1);

    assert_eq!(Ok(expected), Cli::try_parse_from(&["rinkaku", "--tui", "--"]));
}

#[test]
fn should_ask_for_help_and_version() {
    assert_eq!(Err(CliError::DisplayHelp), Cli::try_parse_from(&["rinkaku", "--help"]));
    assert_eq!(Err(CliError::DisplayHelp), Cli::try_parse_from(&["rinkaku", "-h"]));
    assert_eq!(Err(CliError::DisplayVersion), Cli::try_parse_from(&["rinkaku", "--version"]));
    assert_eq!(Err(CliError::DisplayVersion), Cli::try_parse_from(&["rinkaku", "-V"]));
}

#[test]
fn should_allow_pr_with_other_options() {
    let mut expected = cli(None, "HEAD", Some("76"), Some(Format::Digest), false, 1);
    expected.entry = Some("src".to_string());
    let actual = Cli::try_parse_from(&["rinkaku", "--pr", "76", "--format", "digest", "--entry", "src"]);

    assert_eq!(Ok(expected), actual);
}

#[test]
fn should_map_each_format_to_its_output_format() {
    assert_eq!(OutputFormat::Markdown, OutputFormat::from(Format::Md));
    assert_eq!(OutputFormat::Json, OutputFormat::from(Format::Json));
    assert_eq!(OutputFormat::Mermaid, OutputFormat::from(Format::Mermaid));
    assert_eq!(OutputFormat::Digest, OutputFormat::from(Format::Digest));
}

#[test]
fn should_print_fork_identifying_version_string() {
    let version = rinkaku::cli::version();

    assert!(version.contains("fork of hiro-o918/rinkaku"), "version string {version:?} does not identify this as a fork");
}
