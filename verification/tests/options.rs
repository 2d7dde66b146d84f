use pascal_lsp::conditional::{
    validate_runtime_conditional_name, CompilerVersion, ConditionalContext, ConditionalFact,
    ConstantValue, NameProblem,
};
use pascal_lsp::json::{JsonNumber, JsonValue};
use pascal_lsp::keymap::Identity;
use pascal_lsp::limits::ResourceLimits;
use pascal_lsp::options::{
    parse_runtime_limit, parse_runtime_list, RuntimeOption, MAX_RUNTIME_LIST_ENTRIES,
    MAX_RUNTIME_STRING_BYTES,
};
use pascal_lsp::overrides::{parse_runtime_options, RuntimeOptionsOverride};
use pascal_lsp::paths::FilePath;
use pascal_lsp::project::ProjectContext;
use pascal_lsp::selection::{context_key_for_path, Surroundings};
use pascal_lsp::settings::{bounded_limit, RawWorkspaceOptions, WorkspaceOptions};
use pascal_lsp::workspace::build_workspace_roots;

fn text(value: &str) -> JsonValue {
    JsonValue::Text(value.to_string())
}

fn number(value: i64) -> JsonValue {
    JsonValue::Number(JsonNumber {
        text: value.to_string(),
        unsigned: u64::try_from(value).ok(),
        signed: Some(value),
    })
}

fn object(entries: Vec<(&str, JsonValue)>) -> JsonValue {
    JsonValue::Object(
        entries.into_iter().map(|(name, value)| (name.to_string(), value)).collect(),
    )
}

fn aliases() -> Vec<(String, String)> {
    vec![
        ("RANGECHECKS".to_string(), "R".to_string()),
        ("OVERFLOWCHECKS".to_string(), "Q".to_string()),
    ]
}

#[test]
fn runtime_conditional_context_parsing_is_typed_and_bounded() {
    let value = object(vec![
        ("compilerVersion", text("24.0")),
        (
            "compilerOptions",
            object(vec![
                ("R", JsonValue::Bool(true)),
                ("Q", text("off")),
                ("Unknown", JsonValue::Null),
            ]),
        ),
        ("conditionalDefines", JsonValue::Array(vec![text("FEATURE")])),
        ("conditionalUndefines", JsonValue::Array(vec![text("LEGACY")])),
        (
            "conditionalConstants",
            object(vec![
                ("BuildLevel", number(7)),
                ("Flavor", text("desktop")),
                ("Enabled", JsonValue::Bool(true)),
            ]),
        ),
    ]);
    let update = parse_runtime_options(&aliases(), &value, Some(CompilerVersion::new(24, 0)))
        .expect("typed runtime conditional settings")
        .conditional_context;
    assert!(matches!(
        update.compiler_version,
        RuntimeOption::Value(version) if version == CompilerVersion::new(24, 0)
    ));
    let RuntimeOption::Value(options) = update.options else {
        panic!("conditional options were not parsed");
    };
    assert_eq!(options.get("R"), Some(&ConditionalFact::True));
    assert_eq!(options.get("Q"), Some(&ConditionalFact::False));
    assert_eq!(options.get("UNKNOWN"), Some(&ConditionalFact::Unknown));
    let RuntimeOption::Value(defines) = update.defines else {
        panic!("conditional defines were not parsed");
    };
    assert_eq!(defines, vec!["FEATURE".to_string()]);
    let RuntimeOption::Value(undefines) = update.undefines else {
        panic!("conditional undefines were not parsed");
    };
    assert_eq!(undefines, vec!["LEGACY".to_string()]);
    let RuntimeOption::Value(constants) = update.constants else {
        panic!("conditional constants were not parsed");
    };
    assert!(matches!(constants.get("BUILDLEVEL"), Some(ConstantValue::Integer(7))));
    assert!(matches!(
        constants.get("FLAVOR"),
        Some(ConstantValue::Text(flavor)) if flavor == "desktop"
    ));
    assert!(matches!(constants.get("ENABLED"), Some(ConstantValue::Boolean(true))));

    let invalid = parse_runtime_options(
        &aliases(),
        &object(vec![("compilerVersion", text("not-a-version"))]),
        None,
    );
    assert!(invalid.is_ok(), "invalid runtime values are retained as warnings");
    assert!(matches!(
        invalid.expect("runtime option update").conditional_context.compiler_version,
        RuntimeOption::Invalid(_)
    ));
}

#[test]
fn runtime_conditional_names_are_validated_instead_of_silently_dropped() {
    let value = object(vec![
        ("conditionalConstants", object(vec![("not valid", number(1))])),
        ("compilerOptions", object(vec![("R+", JsonValue::Bool(true))])),
        ("conditionalDefines", JsonValue::Array(vec![text("not valid")])),
    ]);
    let update =
        parse_runtime_options(&aliases(), &value, None).expect("runtime option update");
    assert!(matches!(update.conditional_context.constants, RuntimeOption::Invalid(_)));
    assert!(matches!(update.conditional_context.options, RuntimeOption::Invalid(_)));
    assert!(matches!(update.conditional_context.defines, RuntimeOption::Invalid(_)));
}

#[test]
fn runtime_conditional_option_alias_conflicts_become_unknown() {
    let value = object(vec![(
        "compilerOptions",
        object(vec![("R", JsonValue::Bool(false)), ("RangeChecks", JsonValue::Bool(true))]),
    )]);
    let update =
        parse_runtime_options(&aliases(), &value, None).expect("runtime option update");
    let RuntimeOption::Value(options) = update.conditional_context.options else {
        panic!("compiler options were not parsed");
    };
    assert_eq!(options.get("R"), Some(&ConditionalFact::Unknown));
}

#[test]
fn runtime_conditional_fields_keep_initialization_fallback_independently() {
    let mut conditional_context = ConditionalContext::new();
    conditional_context.compiler_version = Some(CompilerVersion::new(24, 0));
    conditional_context.set_option(&aliases(), "Q", ConditionalFact::True);
    let base = WorkspaceOptions { conditional_context, ..WorkspaceOptions::default() };
    let value =
        object(vec![("compilerOptions", object(vec![("R", JsonValue::Bool(false))]))]);
    let update = parse_runtime_options(&aliases(), &value, None)
        .expect("partial runtime conditional update");
    let mut overrides = RuntimeOptionsOverride::new();
    let warnings = overrides.apply(update);
    assert!(warnings.is_empty(), "unexpected warnings: {warnings:?}");

    let effective = overrides.effective(&base);
    let context = &effective.conditional_context;
    assert_eq!(context.compiler_version, Some(CompilerVersion::new(24, 0)));
    assert_eq!(context.option(&aliases(), "R"), ConditionalFact::False);
    assert_eq!(context.option(&aliases(), "Q"), ConditionalFact::Unknown);
}

#[test]
fn runtime_conditional_fields_apply_valid_values_when_another_field_is_invalid() {
    let mut conditional_context = ConditionalContext::new();
    conditional_context.compiler_version = Some(CompilerVersion::new(24, 0));
    let base = WorkspaceOptions { conditional_context, ..WorkspaceOptions::default() };
    let value = object(vec![
        ("compilerVersion", text("not-a-version")),
        ("compilerOptions", object(vec![("R", JsonValue::Bool(false))])),
    ]);
    let update =
        parse_runtime_options(&aliases(), &value, None).expect("per-field runtime parsing");
    let mut overrides = RuntimeOptionsOverride::new();
    let warnings = overrides.apply(update);
    assert_eq!(warnings.len(), 1);
    let effective = overrides.effective(&base);
    let context = &effective.conditional_context;
    assert_eq!(context.compiler_version, Some(CompilerVersion::new(24, 0)));
    assert_eq!(context.option(&aliases(), "R"), ConditionalFact::False);
}

#[test]
fn context_keys_separate_same_source_conditional_contexts() {
    let root = FilePath::parse("/w");
    let source = FilePath::parse("/w/Shared.pas");
    let roots = build_workspace_roots(
        &FilePath::parse("/"),
        &vec![root],
        &WorkspaceOptions::default(),
    );
    let mut first = ProjectContext::none();
    first.conditional_context.compiler_version = Some(CompilerVersion::new(23, 0));
    first.conditional_context.set_define("FEATURE", ConditionalFact::True);
    let mut second = ProjectContext::none();
    second.conditional_context.compiler_version = Some(CompilerVersion::new(24, 0));
    second.conditional_context.set_define("FEATURE", ConditionalFact::False);
    let around = Surroundings { selected: None, directory: None };

    let first_key = context_key_for_path(&roots, &source, Some(&first), &around);
    let second_key = context_key_for_path(&roots, &source, Some(&second), &around);
    assert!(!first_key.same_as(&second_key));
    assert!(!first_key.conditional_context.same(&second_key.conditional_context));
    assert_eq!(first_key.workspace_root.map(|root| root.text()), Some("/w".to_string()));
}

#[test]
fn names_of_conditional_symbols_are_identifiers() {
    assert_eq!(validate_runtime_conditional_name("FEATURE_2"), Ok(()));
    assert_eq!(validate_runtime_conditional_name("_x"), Ok(()));
    assert_eq!(validate_runtime_conditional_name(""), Err(NameProblem::Empty));
    assert_eq!(validate_runtime_conditional_name("2x"), Err(NameProblem::Start));
    assert_eq!(validate_runtime_conditional_name("a b"), Err(NameProblem::Characters));
}

#[test]
fn runtime_lists_and_limits_are_bounded() {
    let many: Vec<JsonValue> =
        (0..MAX_RUNTIME_LIST_ENTRIES + 1).map(|index| text(&format!("p{index}"))).collect();
    let entries = vec![("sourcePaths".to_string(), JsonValue::Array(many))];
    assert!(matches!(parse_runtime_list(&entries, "sourcePaths"), RuntimeOption::Invalid(_)));
    let long = "x".repeat(MAX_RUNTIME_STRING_BYTES + 1);
    let entries = vec![("sourcePaths".to_string(), JsonValue::Array(vec![text(&long)]))];
    assert!(matches!(parse_runtime_list(&entries, "sourcePaths"), RuntimeOption::Invalid(_)));
    assert!(matches!(parse_runtime_list(&entries, "exclude"), RuntimeOption::Absent));
    let entries = vec![("exclude".to_string(), JsonValue::Null)];
    assert!(matches!(parse_runtime_list(&entries, "exclude"), RuntimeOption::Reset));
    let entries = vec![("maxFiles".to_string(), number(5))];
    assert!(matches!(parse_runtime_limit(&entries, "maxFiles", 10), RuntimeOption::Value(5)));
    assert!(matches!(parse_runtime_limit(&entries, "maxFiles", 4), RuntimeOption::Value(4)));
    let entries = vec![("maxFiles".to_string(), number(0))];
    assert!(matches!(
        parse_runtime_limit(&entries, "maxFiles", 4),
        RuntimeOption::Invalid(reason) if reason == "must be at least 1"
    ));
}

#[test]
fn limits_are_within_their_bounds() {
    assert_eq!(bounded_limit(5, 1, 10, "maxFiles"), Ok(5));
    assert!(bounded_limit(0, 1, 10, "maxFiles").is_err());
    assert_eq!(bounded_limit(11, 1, 10, "maxFiles"), Ok(10));
    let defaults = ResourceLimits::default();
    assert_eq!(
        (defaults.max_files, defaults.max_file_bytes, defaults.max_total_bytes),
        (10_000, 2 * 1024 * 1024, 256 * 1024 * 1024)
    );
}

fn raw() -> RawWorkspaceOptions {
    RawWorkspaceOptions {
        source_paths: vec!["src".to_string()],
        exclude: Vec::new(),
        project_file: None,
        build_config: Some("Debug".to_string()),
        platform: None,
        compiler_version: None,
        parsed_version: None,
        compiler_options: None,
        conditional_defines: None,
        conditional_undefines: None,
        conditional_constants: None,
        max_files: Some(12),
        max_file_bytes: None,
        max_total_bytes: None,
    }
}

#[test]
fn options_are_read_from_the_settings_or_a_section_of_them() {
    let direct = WorkspaceOptions::parse(
        &aliases(),
        Some(&object(vec![("sourcePaths", JsonValue::Array(vec![text("src")]))])),
        Ok(raw()),
        Err("no section".to_string()),
    )
    .expect("read");
    assert_eq!(direct.source_paths, vec!["src".to_string()]);
    assert_eq!(direct.build_config.as_deref(), Some("Debug"));
    assert_eq!(direct.limits.max_files, 12);
    let none = WorkspaceOptions::parse(
        &aliases(),
        None,
        Err("nothing".to_string()),
        Err("nothing".to_string()),
    )
    .expect("no settings are no error");
    assert!(none.same(&WorkspaceOptions::default()));
    assert!(!none.same(&direct));
}
