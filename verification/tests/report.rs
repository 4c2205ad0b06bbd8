use qae::output::{git_log_blocks, print_blocks, render_blocks};
use qae::sorting::sort_blocks;
use qae::git::GitLogMatch;
use qae::order::{same_text, str_le};

fn block(key: &str, lines: &[&str]) -> (String, Vec<String>) {
    (key.to_string(), lines.iter().map(|l| l.to_string()).collect())
}

fn commit(repo: &str, hash: &str, date: Option<&str>, message: &str) -> GitLogMatch {
    GitLogMatch {
        repo: repo.to_string(),
        hash: hash.to_string(),
        date: date.map(|d| d.to_string()),
        message: message.to_string(),
    }
}

#[test]
fn single_line_blocks_are_not_separated() {
    let blocks = vec![block("a", &["a"]), block("b", &["b"]), block("c", &["c"])];
    assert_eq!(render_blocks(&blocks), vec!["a", "b", "c"]);
}

#[test]
fn multi_line_blocks_are_separated_by_one_blank_line() {
    let blocks = vec![
        block("a", &["a"]),
        block("b", &["b", "  1:x"]),
        block("c", &["c"]),
        block("d", &["d"]),
        block("e", &["e", "  2:y"]),
        block("f", &["f", "  3:z"]),
    ];
    assert_eq!(
        render_blocks(&blocks),
        vec!["a", "", "b", "  1:x", "", "c", "d", "", "e", "  2:y", "", "f", "  3:z"]
    );
}

#[test]
fn nothing_to_render_gives_no_line() {
    let blocks: Vec<(String, Vec<String>)> = Vec::new();
    assert!(render_blocks(&blocks).is_empty());
}

#[test]
fn sort_is_bytewise_and_stable() {
    let mut blocks = vec![
        block("b", &["first b"]),
        block("a", &["a"]),
        block("B", &["upper"]),
        block("b", &["second b"]),
        block("é", &["accent"]),
        block("", &["empty key"]),
    ];
    sort_blocks(&mut blocks);
    let order: Vec<&str> = blocks.iter().map(|b| b.1[0].as_str()).collect();
    assert_eq!(order, vec!["empty key", "upper", "a", "first b", "second b", "accent"]);
}

#[test]
fn sort_agrees_with_the_standard_stable_sort() {
    let keys = ["m/x", "m", "m/", "a/b", "a", "b", "a/b", "m/\u{7f}", "m/y", "z", "a-b/c", "a/\u{7f}"];
    let mut blocks: Vec<(String, Vec<String>)> = keys
        .iter()
        .enumerate()
        .map(|(i, k)| (k.to_string(), vec![format!("{i}")]))
        .collect();
    let mut expected = blocks.clone();
    expected.sort_by(|a, b| a.0.as_bytes().cmp(b.0.as_bytes()));
    sort_blocks(&mut blocks);
    assert_eq!(blocks, expected);
}

#[test]
fn log_blocks_group_by_repository_in_ascending_order() {
    let matches = vec![
        commit("repo-z", "abc1234", Some("2024-01-02"), "Fix z"),
        commit("repo-a", "def5678", Some("2024-01-03"), "Fix a"),
        commit("repo-z", "0123456", Some("2023-12-31"), "Older z"),
    ];
    let blocks = git_log_blocks(&matches);
    assert_eq!(
        blocks,
        vec![
            block("repo-a/\u{7f}", &["repo-a (git log):", "  def5678 2024-01-03 Fix a"]),
            block(
                "repo-z/\u{7f}",
                &["repo-z (git log):", "  abc1234 2024-01-02 Fix z", "  0123456 2023-12-31 Older z"]
            ),
        ]
    );
}

#[test]
fn log_line_without_date_has_hash_and_message() {
    let matches = vec![commit("r", "abc1234", None, "two words")];
    let blocks = git_log_blocks(&matches);
    assert_eq!(blocks, vec![block("r/\u{7f}", &["r (git log):", "  abc1234 two words"])]);
}

#[test]
fn print_blocks_sorts_then_renders() {
    let mut blocks = vec![
        block("repo-z/file.txt", &["repo-z/file.txt", "  1:issue also here"]),
        block("repo-a/file.txt", &["repo-a/file.txt", "  1:issue here"]),
        block("repo-a/\u{7f}", &["repo-a (git log):", "  abc1234 2024-01-02 Fix issue"]),
    ];
    let lines = print_blocks(&mut blocks);
    assert_eq!(
        lines,
        vec![
            "repo-a/file.txt",
            "  1:issue here",
            "",
            "repo-a (git log):",
            "  abc1234 2024-01-02 Fix issue",
            "",
            "repo-z/file.txt",
            "  1:issue also here",
        ]
    );
}

#[test]
fn key_set_keeps_keys_once_and_ascending() {
    let mut set = qae::order::KeySet::new();
    assert_eq!(set.len(), 0);
    assert_eq!(set.insert("m"), (true, 0));
    assert_eq!(set.insert("a"), (true, 0));
    assert_eq!(set.insert("z"), (true, 2));
    assert_eq!(set.insert("m"), (false, 1));
    assert_eq!(set.insert("B"), (true, 0));
    assert_eq!(set.insert("\u{e9}"), (true, 4));
    assert_eq!(set.insert(""), (true, 0));
    assert_eq!(*set.keys(), vec!["", "B", "a", "m", "z", "\u{e9}"]);
    assert_eq!(set.find("m"), (true, 3));
    assert_eq!(set.find("n"), (false, 4));
    assert_eq!(set.find("zz"), (false, 5));
    assert_eq!(set.find(""), (true, 0));
    assert_eq!(set.find("A"), (false, 1));
    assert_eq!(set.find("\u{ea}"), (false, 6));
    assert_eq!(qae::order::KeySet::new().find("a"), (false, 0));
    assert_eq!(set.key(1), "B");
}

#[test]
fn strings_compare_byte_by_byte() {
    assert!(str_le("", ""));
    assert!(str_le("", "a"));
    assert!(!str_le("a", ""));
    assert!(str_le("a", "a"));
    assert!(str_le("a", "ab"));
    assert!(!str_le("ab", "a"));
    assert!(str_le("Z", "a"));
    assert!(str_le("a/\u{7f}", "a/\u{e9}"));
    assert!(!str_le("a/\u{e9}", "a/\u{7f}"));
    assert!(str_le("\u{7ff}", "\u{800}"));
    assert!(str_le("\u{ffff}", "\u{10000}"));
    assert!(same_text("ansi", "ansi"));
    assert!(!same_text("ansi", "ansi "));
    assert!(!same_text("", "a"));
    assert!(same_text("", ""));
}
