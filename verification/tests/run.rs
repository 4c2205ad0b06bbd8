use qae::cli::{Cli, FlagConflict};
use qae::git::GitLogMatch;
use qae::highlight::rg_report;
use qae::output::file_blocks;
use qae::pattern::Matcher;
use qae::run::{report, run, sources, Findings, Sources};
use qae::cli::Mode;
use qae::search::{ContentMap, ContentMatch};

fn request(pattern: &str) -> Cli {
    Cli {
        pattern: Some(pattern.to_string()),
        path: ".".to_string(),
        names_only: false,
        content_only: false,
        ignore_case: false,
        case_sensitive: false,
        smart_case: false,
        hidden: false,
        no_ignore: false,
        no_ignore_vcs: false,
        file_type: None,
        fixed_strings: false,
        glob: Vec::new(),
        exclude: Vec::new(),
        word_regexp: false,
        log: false,
        no_log: false,
        log_only: false,
        color: None,
        type_list: false,
    }
}

fn line(number: u64, text: &str) -> ContentMatch {
    ContentMatch::Line { line_number: number, line: text.to_string() }
}

fn commit(repo: &str, hash: &str, date: &str, message: &str) -> GitLogMatch {
    GitLogMatch {
        repo: repo.to_string(),
        hash: hash.to_string(),
        date: Some(date.to_string()),
        message: message.to_string(),
    }
}

fn content(entries: Vec<(&str, Vec<ContentMatch>)>) -> ContentMap {
    let mut map = ContentMap::new();
    for (path, entry) in entries {
        map.insert(path.to_string(), entry);
    }
    map
}

fn findings(names: &[&str], entries: Vec<(&str, Vec<ContentMatch>)>, log: Vec<GitLogMatch>) -> Findings {
    Findings {
        names: names.iter().map(|n| n.to_string()).collect(),
        content: content(entries),
        log_matches: log,
    }
}

fn fixture() -> Findings {
    findings(
        &["tests/fixtures/hello.txt", "tests/fixtures/both.txt"],
        vec![
            ("tests/fixtures/greeting.rs", vec![line(2, "    println!(\"hello\");")]),
            ("tests/fixtures/both.txt", vec![line(1, "hello"), line(12, "hello again")]),
            ("tests/fixtures/data.bin", vec![ContentMatch::BinaryFile]),
        ],
        vec![
            commit("tests/fixtures", "abc1234", "2024-01-02", "Say hello"),
            commit("tests/fixtures", "def5678", "2024-01-01", "hello world"),
        ],
    )
}

fn text(r: Result<Vec<String>, FlagConflict>) -> String {
    match r {
        Ok(lines) => lines.join("\n"),
        Err(c) => panic!("{}", c.to_message()),
    }
}

#[test]
fn sources_follow_the_mode() {
    assert_eq!(sources(Mode::LogOnly, false), Sources { names: false, content: false, log: true });
    assert_eq!(sources(Mode::LogOnly, true), Sources { names: false, content: false, log: true });
    assert_eq!(sources(Mode::NamesOnly, false), Sources { names: true, content: false, log: false });
    assert_eq!(sources(Mode::NamesOnly, true), Sources { names: true, content: false, log: true });
    assert_eq!(sources(Mode::ContentOnly, false), Sources { names: false, content: true, log: false });
    assert_eq!(sources(Mode::ContentOnly, true), Sources { names: false, content: true, log: true });
    assert_eq!(sources(Mode::Both, false), Sources { names: true, content: true, log: false });
    assert_eq!(sources(Mode::Both, true), Sources { names: true, content: true, log: true });
}

#[test]
fn the_report_of_all_three_sources() {
    let lines = match run(&request("hello"), &fixture()) {
        Ok(lines) => lines,
        Err(c) => panic!("{}", c.to_message()),
    };
    assert_eq!(
        lines,
        vec![
            "tests/fixtures/both.txt",
            "  (name match)",
            "  1:hello",
            "  12:hello again",
            "",
            "tests/fixtures/data.bin",
            "  (binary file matches)",
            "",
            "tests/fixtures/greeting.rs",
            "  2:    println!(\"hello\");",
            "",
            "tests/fixtures/hello.txt",
            "",
            "tests/fixtures (git log):",
            "  abc1234 2024-01-02 Say hello",
            "  def5678 2024-01-01 hello world",
        ]
    );
}

#[test]
fn names_only_shows_bare_paths_without_blank_lines() {
    let mut cli = request("hello");
    cli.names_only = true;
    cli.no_log = true;
    assert_eq!(text(run(&cli, &fixture())), "tests/fixtures/both.txt\ntests/fixtures/hello.txt");
}

#[test]
fn content_only_shows_no_name_mark() {
    let mut cli = request("hello");
    cli.content_only = true;
    cli.no_log = true;
    assert_eq!(
        text(run(&cli, &fixture())),
        "tests/fixtures/both.txt\n  1:hello\n  12:hello again\n\
         \ntests/fixtures/data.bin\n  (binary file matches)\n\
         \ntests/fixtures/greeting.rs\n  2:    println!(\"hello\");"
    );
}

#[test]
fn log_only_finds_commit_message() {
    let mut cli = request("issue99001");
    cli.log_only = true;
    let found = findings(&[], Vec::new(), vec![commit("/tmp/t/repo-a", "abc1234", "2024-01-02", "Fix issue99001 in auth")]);
    let text = text(run(&cli, &found));
    assert!(text.contains("issue99001"));
    assert!(text.contains("(git log):"));
    assert_eq!(text, "/tmp/t/repo-a (git log):\n  abc1234 2024-01-02 Fix issue99001 in auth");
}

#[test]
fn log_only_case_insensitive() {
    let mut cli = request("issue99002");
    cli.log_only = true;
    cli.ignore_case = true;
    assert!(cli.is_case_insensitive());
    let args = qae::git::git_log_args("/tmp/t/repo-a", "issue99002", cli.is_case_insensitive(), true);
    assert!(args.contains(&"-i".to_string()));
    let found = findings(&[], Vec::new(), vec![commit("/tmp/t/repo-a", "abc1234", "2024-01-02", "Fix ISSUE99002 in auth")]);
    assert!(text(run(&cli, &found)).contains("ISSUE99002"));
}

#[test]
fn log_only_fixed_strings() {
    let mut cli = request("(test99003)");
    cli.log_only = true;
    cli.fixed_strings = true;
    let pattern = qae::pattern::prepare_regex_pattern(&cli);
    assert_eq!(pattern, "\\(test99003\\)");
    let args = qae::git::git_log_args("/tmp/t/repo-a", &pattern, false, true);
    assert_eq!(args[args.len() - 2..], ["--grep".to_string(), "\\(test99003\\)".to_string()]);
    let found = findings(&[], Vec::new(), vec![commit("/tmp/t/repo-a", "abc1234", "2024-01-02", "Fix (test99003) bug")]);
    assert!(text(run(&cli, &found)).contains("test99003"));
}

#[test]
fn log_only_ignores_what_files_matched() {
    let mut cli = request("hello");
    cli.log_only = true;
    assert_eq!(
        text(run(&cli, &fixture())),
        "tests/fixtures (git log):\n  abc1234 2024-01-02 Say hello\n  def5678 2024-01-01 hello world"
    );
}

#[test]
fn log_only_no_match_produces_empty_output() {
    let mut cli = request("zzz_nomatch99007_zzz");
    cli.log_only = true;
    let lines = match run(&cli, &findings(&[], Vec::new(), Vec::new())) {
        Ok(lines) => lines,
        Err(c) => panic!("{}", c.to_message()),
    };
    assert!(lines.is_empty());
}

#[test]
fn no_matches_produces_empty_output() {
    let lines = match run(&request("zzz_no_match_zzz"), &findings(&[], Vec::new(), Vec::new())) {
        Ok(lines) => lines,
        Err(c) => panic!("{}", c.to_message()),
    };
    assert!(lines.is_empty());
}

#[test]
fn log_flag_in_default_mode() {
    let mut cli = request("issue99004");
    cli.log = true;
    let found = findings(
        &[],
        vec![("/tmp/t/repo-a/file.txt", vec![line(1, "issue99004 content here")])],
        vec![commit("/tmp/t/repo-a", "abc1234", "2024-01-02", "Fix issue99004 in auth")],
    );
    let text = text(run(&cli, &found));
    assert!(text.contains("file.txt"));
    assert!(text.contains("(git log):"));
    assert!(text.contains("issue99004"));
}

#[test]
fn log_interleaved_with_file_results() {
    let mut cli = request("issue99008");
    cli.log = true;
    let found = findings(
        &[],
        vec![
            ("/tmp/t/repo-z/file.txt", vec![line(1, "issue99008 also here")]),
            ("/tmp/t/repo-a/file.txt", vec![line(1, "issue99008 here")]),
        ],
        vec![commit("/tmp/t/repo-a", "abc1234", "2024-01-02", "Fix issue99008 in repo-a")],
    );
    let text = text(run(&cli, &found));
    let git_log_pos = text.find("(git log):").unwrap_or_else(|| panic!("no git log section"));
    let repo_z_pos = text.find("repo-z").unwrap_or_else(|| panic!("no repo-z results"));
    assert!(git_log_pos < repo_z_pos);
    assert_eq!(
        text,
        "/tmp/t/repo-a/file.txt\n  1:issue99008 here\n\
         \n/tmp/t/repo-a (git log):\n  abc1234 2024-01-02 Fix issue99008 in repo-a\n\
         \n/tmp/t/repo-z/file.txt\n  1:issue99008 also here"
    );
}

#[test]
fn a_log_block_follows_the_files_of_its_repository() {
    let mut blocks = vec![
        ("r/\u{7f}".to_string(), vec!["r (git log):".to_string(), "  h d m".to_string()]),
        ("r/~last".to_string(), vec!["r/~last".to_string()]),
        ("r/a/b/c".to_string(), vec!["r/a/b/c".to_string()]),
        ("r-other/x".to_string(), vec!["r-other/x".to_string()]),
        ("r0/x".to_string(), vec!["r0/x".to_string()]),
        ("r/ x".to_string(), vec!["r/ x".to_string()]),
    ];
    qae::sorting::sort_blocks(&mut blocks);
    let keys: Vec<&str> = blocks.iter().map(|b| b.0.as_str()).collect();
    assert_eq!(keys, vec!["r-other/x", "r/ x", "r/a/b/c", "r/~last", "r/\u{7f}", "r0/x"]);
}

#[test]
fn a_file_named_beyond_ascii_sorts_after_the_log_block() {
    let mut blocks = vec![
        ("r/\u{e9}t\u{e9}.txt".to_string(), vec!["r/\u{e9}t\u{e9}.txt".to_string()]),
        ("r/\u{7f}".to_string(), vec!["r (git log):".to_string(), "  h d m".to_string()]),
    ];
    qae::sorting::sort_blocks(&mut blocks);
    assert_eq!(blocks[0].0, "r/\u{7f}");
    assert_eq!(blocks[1].0, "r/\u{e9}t\u{e9}.txt");
}

#[test]
fn conflicts_fail_before_anything_is_reported() {
    let mut cli = request("hello");
    cli.log_only = true;
    cli.names_only = true;
    assert_eq!(run(&cli, &fixture()), Err(FlagConflict::NamesOnly));
    cli.names_only = false;
    cli.exclude = vec!["*.rs".to_string()];
    assert_eq!(run(&cli, &fixture()), Err(FlagConflict::Ignore));
}

#[test]
fn the_same_findings_give_the_same_report() {
    let cli = request("hello");
    let first = run(&cli, &fixture());
    let second = run(&cli, &fixture());
    assert_eq!(first, second);
    assert!(first.is_ok());
}

#[test]
fn the_order_and_repetition_of_name_matches_do_not_matter() {
    let all = Sources { names: true, content: true, log: true };
    let mut shuffled = fixture();
    shuffled.names = vec![
        "tests/fixtures/both.txt".to_string(),
        "tests/fixtures/hello.txt".to_string(),
        "tests/fixtures/both.txt".to_string(),
    ];
    assert_eq!(report(all, &shuffled), report(all, &fixture()));
}

#[test]
fn file_blocks_have_one_block_per_path() {
    let found = fixture();
    let mut blocks = file_blocks(&found.names, &found.content);
    blocks.sort();
    let keys: Vec<&str> = blocks.iter().map(|b| b.0.as_str()).collect();
    assert_eq!(
        keys,
        vec![
            "tests/fixtures/both.txt",
            "tests/fixtures/data.bin",
            "tests/fixtures/greeting.rs",
            "tests/fixtures/hello.txt",
        ]
    );
    assert_eq!(blocks[3].1, vec!["tests/fixtures/hello.txt"]);
    assert_eq!(blocks[1].1, vec!["tests/fixtures/data.bin", "  (binary file matches)"]);
}

#[test]
fn content_lines_show_large_line_numbers() {
    let found = findings(&[], vec![("f", vec![line(0, "zero"), line(10, "ten"), line(u64::MAX, "max")])], Vec::new());
    let blocks = file_blocks(&found.names, &found.content);
    assert_eq!(blocks.len(), 1);
    assert_eq!(blocks[0].1, vec!["f", "  0:zero", "  10:ten", "  18446744073709551615:max"]);
}

#[test]
fn ansi_output_binary_file_warning_on_stderr() {
    let matcher = Matcher::new("hello", false).unwrap_or_else(|e| panic!("{}", e.message));
    let map = content(vec![
        ("/tmp/t/data.bin", vec![ContentMatch::BinaryFile]),
        ("/tmp/t/a.txt", vec![line(3, "say hello")]),
    ]);
    let mut diagnostics = Vec::new();
    let lines = rg_report(&map, &matcher, &mut diagnostics);
    assert_eq!(
        lines,
        vec!["\x1b[0m\x1b[35m/tmp/t/a.txt\x1b[0m:\x1b[0m\x1b[32m3\x1b[0m:say \x1b[0m\x1b[1m\x1b[31mhello\x1b[0m"]
    );
    assert_eq!(diagnostics.len(), 1);
    assert!(diagnostics[0].contains("WARNING"));
    assert!(diagnostics[0].contains("data.bin"));
    assert_eq!(diagnostics[0], "WARNING: /tmp/t/data.bin: binary file matches");
}

#[test]
fn ansi_output_is_case_sensitive_by_default() {
    let cli = request("hello");
    let resolved = qae::pattern::resolve_pattern(&cli);
    assert!(!resolved.case_insensitive);
    let matcher = Matcher::new(&resolved.pattern, resolved.case_insensitive).unwrap_or_else(|e| panic!("{}", e.message));
    assert!(matcher.is_match("    println!(\"hello\");"));
    assert!(!matcher.is_match("Hello, world!"));
}

#[test]
fn smart_case_with_ansi_output() {
    let mut cli = request("hello");
    cli.smart_case = true;
    cli.color = Some("ansi".to_string());
    assert!(cli.rg_format());
    let resolved = qae::pattern::resolve_pattern(&cli);
    let matcher = Matcher::new(&resolved.pattern, resolved.case_insensitive).unwrap_or_else(|e| panic!("{}", e.message));
    let map = content(vec![("tests/fixtures/hello.txt", vec![line(1, "Hello, world!")])]);
    let mut diagnostics = Vec::new();
    let lines = rg_report(&map, &matcher, &mut diagnostics);
    assert_eq!(lines.len(), 1);
    assert!(lines[0].contains("hello.txt"));
    assert!(lines[0].contains("\x1b[0m\x1b[1m\x1b[31mHello\x1b[0m"));
}

#[test]
fn listing_types_needs_no_pattern_and_checks_no_flags() {
    let mut cli = request("x");
    cli.pattern = None;
    cli.type_list = true;
    cli.log_only = true;
    cli.names_only = true;
    assert_eq!(qae::run::task(&cli), Ok(qae::run::Task::ListTypes));
}

#[test]
fn a_search_needs_a_pattern() {
    let mut cli = request("x");
    cli.pattern = None;
    let err = match qae::run::task(&cli) {
        Err(e) => e,
        Ok(_) => panic!("a search without a pattern was planned"),
    };
    assert_eq!(err, qae::run::RunError::MissingPattern);
    assert_eq!(err.to_message(), "a pattern is required");
}

#[test]
fn the_plan_follows_mode_log_and_colour() {
    use_plan(&request("x"), Sources { names: true, content: true, log: true }, false);
    let mut cli = request("x");
    cli.no_log = true;
    use_plan(&cli, Sources { names: true, content: true, log: false }, false);
    cli.color = Some("ansi".to_string());
    cli.no_log = false;
    use_plan(&cli, Sources { names: false, content: true, log: false }, true);
    cli.names_only = true;
    use_plan(&cli, Sources { names: true, content: false, log: true }, false);
    cli.names_only = false;
    cli.log_only = true;
    use_plan(&cli, Sources { names: false, content: false, log: true }, false);
    cli.glob = vec!["*.rs".to_string()];
    assert_eq!(qae::run::plan(&cli), Err(qae::run::RunError::Conflict(FlagConflict::Glob)));
}

fn use_plan(cli: &Cli, sources: Sources, coloured: bool) {
    assert_eq!(qae::run::plan(cli), Ok(qae::run::Plan { sources, coloured }));
    assert_eq!(qae::run::task(cli), Ok(qae::run::Task::Search(qae::run::Plan { sources, coloured })));
}

#[test]
fn errors_have_their_messages() {
    use_message(qae::run::RunError::Conflict(FlagConflict::Glob), "--log-only and --glob are mutually exclusive");
    use_message(qae::run::RunError::GitMissing(qae::git::GitMissing), "git is not installed");
    use_message(
        qae::run::RunError::Pattern(qae::pattern::PatternError { message: "bad pattern".to_string() }),
        "bad pattern",
    );
    use_message(
        qae::run::RunError::Scope(qae::scope::ScopeError::InvalidGlob { message: "bad glob".to_string() }),
        "bad glob",
    );
    use_message(
        qae::run::RunError::Scope(qae::scope::ScopeError::InvalidType { message: "bad type".to_string() }),
        "bad type",
    );
}

fn use_message(err: qae::run::RunError, expected: &str) {
    assert_eq!(err.to_message(), expected);
}
