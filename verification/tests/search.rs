use std::io;

use grep_searcher::{BinaryDetection, Searcher, SearcherBuilder, Sink, SinkFinish, SinkMatch};
use qae::pattern::{line_matcher, Matcher};
use qae::search::{
    files_to_search, search_content, search_names, ContentMap, ContentMatch, ContentSink, NoLineNumber,
    SearchedFile, WalkEntry,
};

fn line(number: u64, text: &str) -> ContentMatch {
    ContentMatch::Line { line_number: number, line: text.to_string() }
}

fn shown(entry: &[ContentMatch]) -> Vec<String> {
    entry
        .iter()
        .map(|m| match m {
            ContentMatch::Line { line_number, line } => format!("{line_number}:{line}"),
            ContentMatch::BinaryFile => "binary".to_string(),
        })
        .collect()
}

struct Adapter {
    sink: ContentSink,
}

impl Sink for Adapter {
    type Error = io::Error;

    fn matched(&mut self, _searcher: &Searcher, mat: &SinkMatch<'_>) -> Result<bool, io::Error> {
        self.sink
            .matched(mat.line_number(), mat.bytes())
            .map_err(|_| io::Error::new(io::ErrorKind::InvalidData, "a match came without a line number"))
    }

    fn finish(&mut self, _searcher: &Searcher, finish: &SinkFinish) -> Result<(), io::Error> {
        self.sink.finish(finish.binary_byte_offset());
        Ok(())
    }
}

fn searched(pattern: &str, contents: &[u8]) -> ContentSink {
    let matcher = match line_matcher(pattern, false) {
        Ok(m) => m,
        Err(e) => panic!("pattern refused: {}", e.message),
    };
    let mut searcher = SearcherBuilder::new()
        .line_number(true)
        .binary_detection(BinaryDetection::quit(b'\x00'))
        .build();
    let mut adapter = Adapter { sink: ContentSink::new() };
    if let Err(e) = searcher.search_reader(matcher.matcher(), contents, &mut adapter) {
        panic!("search failed: {e}");
    }
    adapter.sink
}

#[test]
fn a_new_sink_has_seen_nothing() {
    let sink = ContentSink::new();
    assert!(sink.matches().is_empty());
    assert!(!sink.saw_binary());
    assert!(sink.into_entry().is_none());
}

#[test]
fn matched_records_number_and_trimmed_text() {
    let mut sink = ContentSink::new();
    assert_eq!(sink.matched(Some(3), b"Hello, world!\n"), Ok(true));
    assert_eq!(sink.matched(Some(7), b"with carriage return\r\n"), Ok(true));
    assert_eq!(sink.matched(Some(1), b"no line end"), Ok(true));
    assert_eq!(sink.matched(Some(9), b"feeds first\r\r\n\n"), Ok(true));
    assert_eq!(sink.matched(Some(10), b"kept\n\r"), Ok(true));
    assert_eq!(sink.matched(Some(u64::MAX), b"bad \xff byte\n"), Ok(true));
    assert_eq!(
        shown(sink.matches()),
        vec![
            "3:Hello, world!",
            "7:with carriage return",
            "1:no line end",
            "9:feeds first",
            "10:kept\n",
            "18446744073709551615:bad \u{fffd} byte",
        ]
    );
    assert!(!sink.saw_binary());
}

#[test]
fn a_match_without_a_line_number_is_refused() {
    let mut sink = ContentSink::new();
    assert_eq!(sink.matched(Some(2), b"kept\n"), Ok(true));
    assert_eq!(sink.matched(None, b"no number\n"), Err(NoLineNumber));
    assert_eq!(sink.matched(Some(0), b"zero\n"), Err(NoLineNumber));
    assert_eq!(shown(sink.matches()), vec!["2:kept"]);
    assert!(!sink.saw_binary());
}

#[test]
fn the_files_of_a_walk_are_what_is_searched() {
    let entries = vec![
        WalkEntry::Directory { path: "d".to_string() },
        WalkEntry::File { path: "d/b.txt".to_string() },
        WalkEntry::Failed { message: "permission denied".to_string() },
        WalkEntry::File { path: "a.txt".to_string() },
    ];
    let mut diagnostics = vec!["earlier".to_string()];
    assert_eq!(files_to_search(&entries, &mut diagnostics), vec!["d/b.txt", "a.txt"]);
    assert_eq!(diagnostics, vec!["earlier", "permission denied"]);
    assert!(files_to_search(&Vec::new(), &mut diagnostics).is_empty());
    assert_eq!(diagnostics.len(), 2);
}

#[test]
fn the_line_matcher_keeps_its_pattern_and_policy() {
    let matcher = match line_matcher("h.llo", true) {
        Ok(m) => m,
        Err(e) => panic!("pattern refused: {}", e.message),
    };
    assert_eq!(matcher.pattern_text(), "h.llo");
    assert!(matcher.is_case_insensitive());
    let mut searcher = SearcherBuilder::new().line_number(true).build();
    let mut adapter = Adapter { sink: ContentSink::new() };
    if let Err(e) = searcher.search_reader(matcher.matcher(), &b"no\nHELLO there\nhallo\n"[..], &mut adapter) {
        panic!("search failed: {e}");
    }
    assert_eq!(shown(adapter.sink.matches()), vec!["2:HELLO there", "3:hallo"]);
}

#[test]
fn finish_remembers_binary_data() {
    let mut sink = ContentSink::new();
    sink.finish(None);
    assert!(!sink.saw_binary());
    sink.finish(Some(5));
    assert!(sink.saw_binary());
    sink.finish(None);
    assert!(sink.saw_binary());
}

#[test]
fn a_text_file_keeps_its_lines() {
    let mut sink = ContentSink::new();
    assert_eq!(sink.matched(Some(1), b"one\n"), Ok(true));
    assert_eq!(sink.matched(Some(2), b"two\n"), Ok(true));
    sink.finish(None);
    let entry = sink.into_entry().unwrap_or_else(|| panic!("no entry"));
    assert_eq!(shown(&entry), vec!["1:one", "2:two"]);
}

#[test]
fn binary_data_after_a_match_leaves_one_marker() {
    let mut sink = ContentSink::new();
    assert_eq!(sink.matched(Some(1), b"one\n"), Ok(true));
    assert_eq!(sink.matched(Some(2), b"two\n"), Ok(true));
    sink.finish(Some(40));
    let entry = sink.into_entry().unwrap_or_else(|| panic!("no entry"));
    assert_eq!(shown(&entry), vec!["binary"]);
}

#[test]
fn binary_data_without_a_match_hides_the_file() {
    let mut sink = ContentSink::new();
    sink.finish(Some(0));
    assert!(sink.into_entry().is_none());
}

#[test]
fn binary_file_shows_placeholder() {
    // The search met the pattern in `hello\x00world` and then the binary byte.
    let mut sink = ContentSink::new();
    assert_eq!(sink.matched(Some(1), b"hello"), Ok(true));
    sink.finish(Some(5));
    let entry = sink.into_entry().unwrap_or_else(|| panic!("no entry"));
    assert_eq!(shown(&entry), vec!["binary"]);
}

#[test]
fn matches_before_binary_data_collapse_to_the_marker() {
    let mut contents = b"hello at the top\n".to_vec();
    while contents.len() < 200_000 {
        contents.extend_from_slice(b"filler line without the word\n");
    }
    contents.extend_from_slice(b"binary \x00 tail with hello\n");
    let sink = searched("hello", &contents);
    assert!(sink.saw_binary());
    assert!(!sink.matches().is_empty());
    let entry = sink.into_entry().unwrap_or_else(|| panic!("no entry"));
    assert_eq!(shown(&entry), vec!["binary"]);
}

#[test]
fn binary_file_without_the_pattern_has_no_entry() {
    let sink = searched("absent", b"hello\x00world");
    assert!(sink.saw_binary());
    assert!(sink.into_entry().is_none());
}

#[test]
fn content_search_grouped_format() {
    let sink = searched("world", b"Hello, world!\nGoodbye, world!\n");
    let entry = sink.into_entry().unwrap_or_else(|| panic!("no entry"));
    assert_eq!(shown(&entry), vec!["1:Hello, world!", "2:Goodbye, world!"]);
}

#[test]
fn content_search_finds_matching_lines() {
    let greeting = searched("hello", b"fn main() {\n    println!(\"hello\");\n}\n");
    let entry = greeting.into_entry().unwrap_or_else(|| panic!("no entry"));
    assert_eq!(shown(&entry), vec!["2:    println!(\"hello\");"]);
    let hello = searched("hello", b"Hello, world!\nGoodbye, world!\n");
    assert!(hello.into_entry().is_none());
}

#[test]
fn map_insert_and_get() {
    let mut map = ContentMap::new();
    assert_eq!(map.len(), 0);
    assert!(map.get("a").is_none());
    map.insert("m".to_string(), vec![line(1, "m")]);
    map.insert("a".to_string(), vec![line(2, "a")]);
    map.insert("z".to_string(), vec![line(3, "z")]);
    map.insert("b".to_string(), vec![ContentMatch::BinaryFile]);
    assert_eq!(map.len(), 4);
    assert_eq!(*map.keys(), vec!["a", "b", "m", "z"]);
    assert_eq!(shown(map.get("a").unwrap_or_else(|| panic!("a"))), vec!["2:a"]);
    assert_eq!(shown(map.get("b").unwrap_or_else(|| panic!("b"))), vec!["binary"]);
    assert_eq!(shown(map.get("z").unwrap_or_else(|| panic!("z"))), vec!["3:z"]);
    assert!(map.get("c").is_none());
    assert!(map.get("").is_none());
    map.insert("m".to_string(), vec![line(9, "again")]);
    assert_eq!(map.len(), 4);
    assert_eq!(shown(map.get("m").unwrap_or_else(|| panic!("m"))), vec!["9:again"]);
}

#[test]
fn names_are_matched_on_files_only() {
    let matcher = Matcher::new("hello", false).unwrap_or_else(|e| panic!("{}", e.message));
    let entries = vec![
        WalkEntry::Directory { path: "tests/fixtures/hello".to_string() },
        WalkEntry::File { path: "tests/fixtures/hello.txt".to_string() },
        WalkEntry::Failed { message: "permission denied".to_string() },
        WalkEntry::File { path: "tests/fixtures/greeting.rs".to_string() },
        WalkEntry::File { path: "tests/fixtures/subdir/hello_again.txt".to_string() },
        WalkEntry::Failed { message: "broken link".to_string() },
    ];
    let mut diagnostics = vec!["earlier".to_string()];
    let names = search_names(&entries, &matcher, &mut diagnostics);
    assert_eq!(names, vec!["tests/fixtures/hello.txt", "tests/fixtures/subdir/hello_again.txt"]);
    assert_eq!(diagnostics, vec!["earlier", "permission denied", "broken link"]);
}

#[test]
fn name_search_finds_file_by_name() {
    let matcher = Matcher::new("hello", false).unwrap_or_else(|e| panic!("{}", e.message));
    let entries = vec![
        WalkEntry::File { path: "tests/fixtures/data.csv".to_string() },
        WalkEntry::File { path: "tests/fixtures/hello.txt".to_string() },
    ];
    let mut diagnostics = Vec::new();
    let names = search_names(&entries, &matcher, &mut diagnostics);
    assert!(names.iter().any(|n| n.contains("hello.txt")));
    assert!(diagnostics.is_empty());
}

#[test]
fn name_search_finds_nested_file() {
    let matcher = Matcher::new("nested", false).unwrap_or_else(|e| panic!("{}", e.message));
    let entries = vec![
        WalkEntry::Directory { path: "tests/fixtures/subdir".to_string() },
        WalkEntry::File { path: "tests/fixtures/subdir/nested.txt".to_string() },
    ];
    let mut diagnostics = Vec::new();
    let names = search_names(&entries, &matcher, &mut diagnostics);
    assert_eq!(names, vec!["tests/fixtures/subdir/nested.txt"]);
}

#[test]
fn binary_file_not_in_names_only() {
    let matcher = Matcher::new("hello", false).unwrap_or_else(|e| panic!("{}", e.message));
    let entries = vec![WalkEntry::File { path: "/tmp/t/data.bin".to_string() }];
    let mut diagnostics = Vec::new();
    let names = search_names(&entries, &matcher, &mut diagnostics);
    assert!(names.is_empty());
}

#[test]
fn content_results_follow_the_policy_per_file() {
    let mut text = ContentSink::new();
    assert_eq!(text.matched(Some(4), b"found\n"), Ok(true));
    let mut binary_after_match = ContentSink::new();
    assert_eq!(binary_after_match.matched(Some(1), b"found\n"), Ok(true));
    binary_after_match.finish(Some(9));
    let mut binary_only = ContentSink::new();
    binary_only.finish(Some(0));
    let searched = vec![
        SearchedFile { path: "z.txt".to_string(), outcome: Ok(text) },
        SearchedFile { path: "gone.txt".to_string(), outcome: Err("No such file".to_string()) },
        SearchedFile { path: "b.bin".to_string(), outcome: Ok(binary_after_match) },
        SearchedFile { path: "c.bin".to_string(), outcome: Ok(binary_only) },
        SearchedFile { path: "empty.txt".to_string(), outcome: Ok(ContentSink::new()) },
    ];
    let mut diagnostics = Vec::new();
    let map = search_content(searched, &mut diagnostics);
    assert_eq!(*map.keys(), vec!["b.bin", "z.txt"]);
    assert_eq!(shown(map.get("b.bin").unwrap_or_else(|| panic!("b"))), vec!["binary"]);
    assert_eq!(shown(map.get("z.txt").unwrap_or_else(|| panic!("z"))), vec!["4:found"]);
    assert!(map.get("c.bin").is_none());
    assert!(map.get("empty.txt").is_none());
    assert!(map.get("gone.txt").is_none());
    assert_eq!(diagnostics, vec!["gone.txt: No such file"]);
}
