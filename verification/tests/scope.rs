use qae::cli::Cli;
use qae::scope::{
    build_overrides, build_walker, compile_scope, request_scope, select_file_type, type_lines, type_list,
    ScopeError, TypeDef, WalkScope,
};

fn request(pattern: &str) -> Cli {
    Cli {
        pattern: Some(pattern.to_string()),
        path: "tests/fixtures/".to_string(),
        names_only: false,
        content_only: false,
        ignore_case: false,
        case_sensitive: false,
        smart_case: false,
        hidden: false,
        no_ignore: false,
        no_ignore_vcs: false,
        file_type: None,
        fixed_strings: false,
        glob: Vec::new(),
        exclude: Vec::new(),
        word_regexp: false,
        log: false,
        no_log: false,
        log_only: false,
        color: None,
        type_list: false,
    }
}

fn scope_with(overrides: &[&str]) -> WalkScope {
    WalkScope {
        root: "/work".to_string(),
        skip_hidden: true,
        use_ignore_files: true,
        use_vcs_ignore: true,
        overrides: overrides.iter().map(|g| g.to_string()).collect(),
        file_type: None,
    }
}

fn def(name: &str, globs: &[&str]) -> TypeDef {
    TypeDef { name: name.to_string(), globs: globs.iter().map(|g| g.to_string()).collect() }
}

#[test]
fn the_default_scope_hides_and_obeys_ignore_files() {
    let scope = build_walker(&request("x"));
    assert_eq!(scope.root, "tests/fixtures/");
    assert!(scope.skip_hidden);
    assert!(scope.use_ignore_files);
    assert!(scope.use_vcs_ignore);
    assert!(scope.overrides.is_empty());
    assert!(scope.file_type.is_none());
}

#[test]
fn hidden_files_included_with_flag() {
    let mut cli = request("secret");
    cli.hidden = true;
    assert!(!build_walker(&cli).skip_hidden);
}

#[test]
fn hidden_files_excluded_by_default() {
    assert!(build_walker(&request("secret")).skip_hidden);
}

#[test]
fn no_ignore_flag_overrides_dot_ignore() {
    let mut cli = request("findme");
    cli.no_ignore = true;
    let scope = build_walker(&cli);
    assert!(!scope.use_ignore_files);
    assert!(!scope.use_vcs_ignore);
}

#[test]
fn no_ignore_vcs_disables_gitignore_but_keeps_dot_ignore() {
    let mut cli = request("findme");
    cli.no_ignore_vcs = true;
    let scope = build_walker(&cli);
    assert!(scope.use_ignore_files);
    assert!(!scope.use_vcs_ignore);
}

#[test]
fn excludes_come_after_includes_and_are_negated() {
    let mut cli = request("world");
    cli.glob = vec!["*.txt".to_string(), "*.md".to_string()];
    cli.exclude = vec!["hello*".to_string(), "!odd".to_string()];
    cli.file_type = Some("rust".to_string());
    let scope = build_walker(&cli);
    assert_eq!(scope.overrides, vec!["*.txt", "*.md", "!hello*", "!!odd"]);
    assert_eq!(scope.file_type, Some("rust".to_string()));
}

#[test]
fn glob_filters_content_search() {
    let mut cli = request("hello");
    cli.glob = vec!["*.rs".to_string()];
    let scope = build_walker(&cli);
    let overrides = match build_overrides(&scope) {
        Ok(o) => o,
        Err(_) => panic!("globs refused"),
    };
    assert!(overrides.matched("tests/fixtures/greeting.rs", false).is_whitelist());
    assert!(overrides.matched("tests/fixtures/hello.txt", false).is_ignore());
}

#[test]
fn ignore_excludes_files_from_content_search() {
    let mut cli = request("hello");
    cli.exclude = vec!["*.txt".to_string()];
    let scope = build_walker(&cli);
    let overrides = match build_overrides(&scope) {
        Ok(o) => o,
        Err(_) => panic!("globs refused"),
    };
    assert!(overrides.matched("tests/fixtures/hello.txt", false).is_ignore());
    assert!(!overrides.matched("tests/fixtures/greeting.rs", false).is_ignore());
}

#[test]
fn ignore_multiple_patterns() {
    let mut cli = request("hello");
    cli.exclude = vec!["*.txt".to_string(), "*.csv".to_string()];
    let scope = build_walker(&cli);
    let overrides = match build_overrides(&scope) {
        Ok(o) => o,
        Err(_) => panic!("globs refused"),
    };
    assert!(overrides.matched("tests/fixtures/hello.txt", false).is_ignore());
    assert!(overrides.matched("tests/fixtures/data.csv", false).is_ignore());
    assert!(!overrides.matched("tests/fixtures/greeting.rs", false).is_ignore());
}

#[test]
fn ignore_composable_with_glob() {
    let mut cli = request("world");
    cli.glob = vec!["*.txt".to_string()];
    cli.exclude = vec!["hello*".to_string()];
    let scope = build_walker(&cli);
    let overrides = match build_overrides(&scope) {
        Ok(o) => o,
        Err(_) => panic!("globs refused"),
    };
    assert!(overrides.matched("tests/fixtures/hello.txt", false).is_ignore());
    assert!(overrides.matched("tests/fixtures/other.txt", false).is_whitelist());
}

#[test]
fn no_globs_make_an_empty_override_set() {
    let overrides = match build_overrides(&scope_with(&[])) {
        Ok(o) => o,
        Err(_) => panic!("globs refused"),
    };
    assert!(overrides.is_empty());
    assert!(overrides.matched("anything", false).is_none());
}

#[test]
fn an_invalid_glob_fails_the_scope() {
    for bad in ["[z-a]", "a[", "{a,b"] {
        match build_overrides(&scope_with(&["*.rs", bad, "*.txt"])) {
            Ok(_) => panic!("{bad} was taken"),
            Err(ScopeError::InvalidGlob { message }) => assert!(!message.is_empty()),
            Err(ScopeError::InvalidType { .. }) => panic!("wrong error"),
        }
    }
}

#[test]
fn type_list_prints_file_types() {
    let lines = type_list();
    assert!(lines.iter().any(|l| l.starts_with("rust: ") && l.contains("*.rs")));
    assert!(lines.iter().any(|l| l.starts_with("python: ")));
    assert!(lines.iter().all(|l| l.contains(": ")));
}

#[test]
fn type_list_works_without_pattern() {
    assert!(!type_list().is_empty());
}

#[test]
fn type_lines_join_the_globs() {
    let defs = vec![def("rust", &["*.rs"]), def("web", &["*.css", "*.html", "*.js"]), def("none", &[])];
    assert_eq!(type_lines(&defs), vec!["rust: *.rs", "web: *.css, *.html, *.js", "none: "]);
    assert!(type_lines(&Vec::new()).is_empty());
}

#[test]
fn type_filter_limits_to_matching_files() {
    let types = match select_file_type("rust") {
        Ok(types) => types,
        Err(_) => panic!("rust was refused"),
    };
    assert!(types.matched("tests/fixtures/greeting.rs", false).is_whitelist());
    assert!(types.matched("tests/fixtures/hello.txt", false).is_ignore());
    assert!(types.matched("tests/fixtures/data.csv", false).is_ignore());
}

#[test]
fn an_unknown_type_fails_the_scope() {
    match select_file_type("no-such-type") {
        Err(ScopeError::InvalidType { message }) => assert!(message.contains("no-such-type")),
        _ => panic!("an unknown type was taken"),
    }
    assert!(select_file_type("all").is_ok());
    assert!(select_file_type("py").is_ok());
    assert!(select_file_type("Rust").is_err());
}

const FIXTURES: [&str; 4] = [
    "tests/fixtures/data.csv",
    "tests/fixtures/greeting.rs",
    "tests/fixtures/hello.txt",
    "tests/fixtures/subdir/nested.txt",
];

/// The fixture files that a walk with the overrides of `cli` would visit.
fn visited(cli: &Cli) -> Vec<qae::search::WalkEntry> {
    let overrides = match build_overrides(&build_walker(cli)) {
        Ok(o) => o,
        Err(_) => panic!("globs refused"),
    };
    FIXTURES
        .iter()
        .filter(|path| !overrides.matched(path, false).is_ignore())
        .map(|path| qae::search::WalkEntry::File { path: path.to_string() })
        .collect()
}

fn names_found(cli: &Cli) -> Vec<String> {
    let resolved = qae::pattern::resolve_pattern(cli);
    let matcher = match qae::pattern::Matcher::new(&resolved.pattern, resolved.case_insensitive) {
        Ok(m) => m,
        Err(e) => panic!("pattern refused: {}", e.message),
    };
    let mut diagnostics = Vec::new();
    qae::search::search_names(&visited(cli), &matcher, &mut diagnostics)
}

#[test]
fn glob_filters_name_search() {
    let mut cli = request("hello");
    cli.names_only = true;
    cli.glob = vec!["*.txt".to_string()];
    let text = names_found(&cli).join("\n");
    assert!(text.contains("hello.txt"));
    assert!(!text.contains("greeting.rs"));
}

#[test]
fn glob_filters_default_mode() {
    let mut cli = request("world");
    cli.glob = vec!["*.txt".to_string()];
    let paths: Vec<String> = visited(&cli)
        .iter()
        .map(|e| match e {
            qae::search::WalkEntry::File { path } => path.clone(),
            _ => panic!("not a file"),
        })
        .collect();
    assert_eq!(paths, vec!["tests/fixtures/hello.txt", "tests/fixtures/subdir/nested.txt"]);
}

#[test]
fn glob_with_fixed_strings() {
    let mut cli = request("(");
    cli.content_only = true;
    cli.glob = vec!["*.rs".to_string()];
    cli.fixed_strings = true;
    assert_eq!(qae::pattern::prepare_regex_pattern(&cli), "\\(");
    let paths = visited(&cli);
    assert_eq!(paths, vec![qae::search::WalkEntry::File { path: "tests/fixtures/greeting.rs".to_string() }]);
}

#[test]
fn ignore_excludes_files_from_name_search() {
    let mut cli = request("greeting");
    cli.names_only = true;
    cli.exclude = vec!["*.rs".to_string()];
    let text = names_found(&cli).join("\n");
    assert!(!text.contains("greeting.rs"));
}

#[test]
fn the_type_list_ascends_by_name_and_every_type_has_a_glob() {
    let lines = type_list();
    assert!(!lines.is_empty());
    let mut previous: Option<String> = None;
    for line in &lines {
        let (name, globs) = match line.split_once(": ") {
            Some(parts) => parts,
            None => panic!("no colon in {line}"),
        };
        assert!(!name.is_empty());
        assert!(!globs.is_empty(), "{name} has no glob");
        if let Some(before) = &previous {
            assert!(before.as_bytes() < name.as_bytes(), "{before} before {name}");
        }
        previous = Some(name.to_string());
    }
}

#[test]
fn comments_and_blank_globs_are_taken_and_leave_nothing() {
    let overrides = match build_overrides(&scope_with(&["# a comment", "", "   ", "*.rs  \t", "!*.txt", "#"])) {
        Ok(o) => o,
        Err(_) => panic!("globs refused"),
    };
    assert_eq!(overrides.num_whitelists(), 1);
    assert_eq!(overrides.num_ignores(), 1);
    assert!(overrides.matched("/work/a.rs", false).is_whitelist());
    assert!(overrides.matched("/work/a.txt", false).is_ignore());
    let none = match build_overrides(&scope_with(&["#only", " "])) {
        Ok(o) => o,
        Err(_) => panic!("globs refused"),
    };
    assert!(none.is_empty());
}

#[test]
fn accepted_include_and_exclude_set_the_scope_up() {
    let mut cli = request("world");
    cli.glob = vec!["*.txt".to_string()];
    cli.exclude = vec!["hello*".to_string()];
    assert!(build_overrides(&build_walker(&cli)).is_ok());
}

#[test]
fn a_scope_without_globs_or_type_compiles_to_nothing() {
    let compiled = match compile_scope(&scope_with(&[])) {
        Ok(c) => c,
        Err(_) => panic!("the scope was refused"),
    };
    assert!(compiled.overrides.is_none());
    assert!(compiled.types.is_none());
}

#[test]
fn a_compiled_scope_holds_the_globs_and_the_type() {
    let mut scope = scope_with(&["*.rs", "# note", "!target/"]);
    scope.file_type = Some("rust".to_string());
    let compiled = match compile_scope(&scope) {
        Ok(c) => c,
        Err(_) => panic!("the scope was refused"),
    };
    let overrides = compiled.overrides.unwrap_or_else(|| panic!("no overrides"));
    assert_eq!(overrides.num_whitelists(), 1);
    assert_eq!(overrides.num_ignores(), 1);
    assert!(overrides.matched("/work/src/lib.rs", false).is_whitelist());
    assert!(overrides.matched("/work/target", true).is_ignore());
    let types = compiled.types.unwrap_or_else(|| panic!("no types"));
    assert!(types.matched("/work/src/lib.rs", false).is_whitelist());
    assert!(types.matched("/work/notes.txt", false).is_ignore());
}

#[test]
fn an_invalid_glob_or_an_unknown_type_fails_the_scope_as_a_whole() {
    let mut cli = request("x");
    cli.glob = vec!["*.rs".to_string(), "[z-a]".to_string()];
    match request_scope(&cli) {
        Err(ScopeError::InvalidGlob { message }) => assert!(!message.is_empty()),
        _ => panic!("an invalid include glob was taken"),
    }
    cli.glob = vec!["*.rs".to_string()];
    cli.exclude = vec!["{a,b".to_string()];
    assert!(matches!(request_scope(&cli), Err(ScopeError::InvalidGlob { .. })));
    cli.exclude = vec!["*.txt".to_string()];
    cli.file_type = Some("no-such-type".to_string());
    match request_scope(&cli) {
        Err(ScopeError::InvalidType { message }) => assert!(message.contains("no-such-type")),
        _ => panic!("an unknown type was taken"),
    }
    cli.exclude = vec!["a[".to_string()];
    assert!(matches!(request_scope(&cli), Err(ScopeError::InvalidGlob { .. })));
    cli.exclude = Vec::new();
    cli.glob = Vec::new();
    assert!(matches!(request_scope(&cli), Err(ScopeError::InvalidType { .. })));
    cli.file_type = Some("rust".to_string());
    let (scope, compiled) = match request_scope(&cli) {
        Ok(made) => made,
        Err(_) => panic!("a valid scope was refused"),
    };
    assert_eq!(scope, build_walker(&cli));
    assert!(compiled.overrides.is_none());
    assert!(compiled.types.is_some());
}

#[test]
fn selecting_all_selects_every_type() {
    let types = match select_file_type("all") {
        Ok(t) => t,
        Err(_) => panic!("all was refused"),
    };
    assert!(types.matched("a.rs", false).is_whitelist());
    assert!(types.matched("a.py", false).is_whitelist());
    let one = match select_file_type("py") {
        Ok(t) => t,
        Err(_) => panic!("py was refused"),
    };
    assert!(one.matched("a.py", false).is_whitelist());
    assert!(one.matched("a.rs", false).is_ignore());
}

#[test]
fn the_name_search_of_a_request_follows_its_case_policy() {
    let entries: Vec<qae::search::WalkEntry> = vec![
        qae::search::WalkEntry::File { path: "tests/fixtures/Hello.TXT".to_string() },
        qae::search::WalkEntry::Directory { path: "tests/fixtures/hello".to_string() },
        qae::search::WalkEntry::Failed { message: "unreadable".to_string() },
        qae::search::WalkEntry::File { path: "tests/fixtures/hello.txt".to_string() },
        qae::search::WalkEntry::File { path: "tests/fixtures/helloXtxt".to_string() },
    ];
    let found = |cli: &Cli| {
        let mut diagnostics = Vec::new();
        let names = match qae::search::name_search(cli, &entries, &mut diagnostics) {
            Ok(names) => names,
            Err(e) => panic!("{}", e.message),
        };
        assert_eq!(diagnostics, vec!["unreadable"]);
        names
    };
    let mut cli = request("hello.txt");
    assert_eq!(found(&cli), vec!["tests/fixtures/hello.txt", "tests/fixtures/helloXtxt"]);
    cli.fixed_strings = true;
    assert_eq!(found(&cli), vec!["tests/fixtures/hello.txt"]);
    cli.ignore_case = true;
    assert_eq!(found(&cli), vec!["tests/fixtures/Hello.TXT", "tests/fixtures/hello.txt"]);
    cli.smart_case = true;
    cli.case_sensitive = true;
    assert_eq!(found(&cli), vec!["tests/fixtures/hello.txt"]);

    let mut diagnostics = vec!["earlier".to_string()];
    assert!(qae::search::name_search(&request("("), &entries, &mut diagnostics).is_err());
    assert_eq!(diagnostics, vec!["earlier"]);
}
