//! From the pattern as typed to the pattern that is searched for, and the
//! compiled expressions that do the matching.

use vstd::prelude::*;
use vstd::string::StringExecFns;
use vstd::utf8::encode_utf8;
use vstd::utf8::is_char_boundary;
use crate::cli::Cli;

verus! {

/// A compiled regular expression of the `regex` crate.
#[verifier::external_type_specification]
#[verifier::external_body]
pub struct ExRegex(regex::Regex);

/// The error with which the `regex` crate refuses a pattern.
#[verifier::external_type_specification]
#[verifier::external_body]
pub struct ExRegexError(regex::Error);

/// A line matcher of the `grep-regex` crate.
#[verifier::external_type_specification]
#[verifier::external_body]
pub struct ExRegexMatcher(grep_regex::RegexMatcher);

/// The error with which the `grep-regex` crate refuses a pattern.
#[verifier::external_type_specification]
#[verifier::external_body]
pub struct ExLineMatcherError(grep_regex::Error);

/// The characters that mean something in a regular expression.
pub open spec fn is_meta_character(c: char) -> bool {
    c == '\\' || c == '.' || c == '+' || c == '*' || c == '?' || c == '(' || c == ')' || c == '|'
        || c == '[' || c == ']' || c == '{' || c == '}' || c == '^' || c == '$' || c == '#' || c
        == '&' || c == '-' || c == '~'
}

/// `text` with a backslash put before each metacharacter.
pub open spec fn escaped(text: Seq<char>) -> Seq<char>
    decreases text.len(),
{
    if text.len() == 0 {
        Seq::empty()
    } else if is_meta_character(text.last()) {
        escaped(text.drop_last()).push('\\').push(text.last())
    } else {
        escaped(text.drop_last()).push(text.last())
    }
}

/// `pattern` without its escapes: each backslash is dropped and the
/// character after it kept as it is.
pub open spec fn unescaped(pattern: Seq<char>) -> Seq<char>
    decreases pattern.len(),
{
    if pattern.len() == 0 {
        Seq::empty()
    } else if pattern[0] == '\\' && pattern.len() >= 2 {
        seq![pattern[1]] + unescaped(pattern.skip(2))
    } else {
        seq![pattern[0]] + unescaped(pattern.drop_first())
    }
}

/// Escaping goes character by character.
pub proof fn lemma_escaped_concat(a: Seq<char>, b: Seq<char>)
    ensures
        escaped(a + b) == escaped(a) + escaped(b),
    decreases b.len(),
{
    if b.len() == 0 {
        assert(a + b =~= a);
        assert(escaped(a) + escaped(b) =~= escaped(a));
    } else {
        lemma_escaped_concat(a, b.drop_last());
        assert((a + b).drop_last() =~= a + b.drop_last());
        assert((a + b).last() == b.last());
        assert(escaped(a + b) =~= escaped(a) + escaped(b));
    }
}

/// Escaping only puts backslashes in: taking the escapes out of an escaped
/// text gives the text back, whatever characters it holds.
pub proof fn lemma_escaped_reads_as_text(text: Seq<char>)
    ensures
        unescaped(escaped(text)) == text,
    decreases text.len(),
{
    if text.len() > 0 {
        let first = seq![text[0]];
        let rest = text.drop_first();
        assert(text =~= first + rest);
        lemma_escaped_concat(first, rest);
        lemma_escaped_reads_as_text(rest);
        assert(first.drop_last() =~= Seq::<char>::empty());
        assert(escaped(first.drop_last()) =~= Seq::<char>::empty());
        let whole = escaped(first) + escaped(rest);
        if is_meta_character(text[0]) {
            assert(escaped(first) =~= seq!['\\', text[0]]);
            assert(whole.skip(2) =~= escaped(rest));
            assert(unescaped(whole) =~= first + rest);
        } else {
            assert(escaped(first) =~= first);
            assert(whole.drop_first() =~= escaped(rest));
            assert(unescaped(whole) =~= first + rest);
        }
    }
}

/// The assertion that matches at the edge of a word.
pub open spec fn word_boundary() -> Seq<char> {
    seq!['\\', 'b']
}

/// The pattern that is searched for: escaped where it is to be taken
/// literally, then set between word boundaries where whole words are wanted.
pub open spec fn effective_pattern(raw: Seq<char>, literal: bool, whole_word: bool) -> Seq<char> {
    let body = if literal {
        escaped(raw)
    } else {
        raw
    };
    if whole_word {
        word_boundary() + body + word_boundary()
    } else {
        body
    }
}

/// Calls `regex::escape`, which walks over the characters of `text` and
/// writes a backslash before each of the eighteen metacharacters and every
/// character as it is.
#[verifier::external_body]
fn escape(text: &str) -> (r: String)
    ensures
        r@ == escaped(text@),
{
    regex::escape(text)
}

/// Derives the pattern to search for from the pattern as typed.
pub fn prepare_regex_pattern(cli: &Cli) -> (pattern: String)
    requires
        cli.pattern is Some,
    ensures
        pattern@ == effective_pattern(cli.raw_pattern(), cli.fixed_strings, cli.word_regexp),
{
    let raw = cli.pattern.as_ref().unwrap();
    let body = if cli.fixed_strings {
        escape(raw.as_str())
    } else {
        raw.clone()
    };
    if cli.word_regexp {
        let mut pattern = String::new();
        pattern.push('\\');
        pattern.push('b');
        pattern.append(body.as_str());
        pattern.push('\\');
        pattern.push('b');
        assert(pattern@ =~= word_boundary() + body@ + word_boundary());
        pattern
    } else {
        body
    }
}

/// The pattern and the case policy that a search runs with.
#[derive(Debug, PartialEq, Eq)]
pub struct ResolvedPattern {
    /// The pattern to compile.
    pub pattern: String,
    /// Whether matching disregards case.
    pub case_insensitive: bool,
}

/// Resolves pattern and case policy in one step.
pub fn resolve_pattern(cli: &Cli) -> (r: ResolvedPattern)
    requires
        cli.pattern is Some,
    ensures
        r.pattern@ == effective_pattern(cli.raw_pattern(), cli.fixed_strings, cli.word_regexp),
        r.case_insensitive == cli.case_insensitive(),
{
    ResolvedPattern { pattern: prepare_regex_pattern(cli), case_insensitive: cli.is_case_insensitive() }
}

/// Why a pattern was refused.
#[derive(Debug, PartialEq, Eq)]
pub struct PatternError {
    /// The compiler's explanation.
    pub message: String,
}

/// Whether `pattern` compiles with the given case policy.
pub uninterp spec fn regex_compiles(pattern: Seq<char>, case_insensitive: bool) -> bool;

/// Whether `pattern`, compiled with the given case policy, matches somewhere in `text`.
pub uninterp spec fn regex_matches(pattern: Seq<char>, case_insensitive: bool, text: Seq<char>) -> bool;

/// The byte ranges of `text` that `pattern`, compiled with the given case
/// policy, matches: leftmost first, none overlapping another.
pub uninterp spec fn regex_spans(pattern: Seq<char>, case_insensitive: bool, text: Seq<char>) -> Seq<
    (usize, usize),
>;

/// `spans` are byte ranges of `bytes` that come one after another without
/// overlap and are cut where characters begin.
pub open spec fn spans_fit(bytes: Seq<u8>, spans: Seq<(usize, usize)>) -> bool {
    &&& forall|i: int|
        0 <= i < spans.len() ==> {
            &&& (#[trigger] spans[i]).0 <= spans[i].1 <= bytes.len()
            &&& is_char_boundary(bytes, spans[i].0 as int)
            &&& is_char_boundary(bytes, spans[i].1 as int)
        }
    &&& forall|i: int, j: int| 0 <= i < j < spans.len() ==> (#[trigger] spans[i]).1 <= (#[trigger] spans[j]).0
}

/// Calls `RegexBuilder::new`, `case_insensitive` and `build`. Whether the
/// pattern is accepted depends on the pattern and the flag alone; nothing
/// else is claimed.
#[verifier::external_body]
fn build_regex(pattern: &str, case_insensitive: bool) -> (r: Result<regex::Regex, regex::Error>)
    ensures
        r is Ok <==> regex_compiles(pattern@, case_insensitive),
{
    regex::RegexBuilder::new(pattern).case_insensitive(case_insensitive).build()
}

/// The text of a `regex::Error`, through its `Display`.
#[verifier::external_body]
fn regex_error_text(e: &regex::Error) -> (s: String) {
    e.to_string()
}

/// A compiled pattern for testing paths and lines, together with the
/// pattern text and case policy it was compiled from.
pub struct Matcher {
    re: regex::Regex,
    pattern: String,
    case_insensitive: bool,
}

impl Matcher {
    /// The pattern this matcher was compiled from.
    pub closed spec fn pattern(&self) -> Seq<char> {
        self.pattern@
    }

    /// Whether this matcher disregards case.
    pub closed spec fn case_insensitive(&self) -> bool {
        self.case_insensitive
    }

    /// Whether this matcher finds a match somewhere in `text`.
    pub open spec fn matches(&self, text: Seq<char>) -> bool {
        regex_matches(self.pattern(), self.case_insensitive(), text)
    }

    /// Compiles `pattern`. Fails exactly when the `regex` crate refuses it.
    pub fn new(pattern: &str, case_insensitive: bool) -> (r: Result<Matcher, PatternError>)
        ensures
            r is Ok <==> regex_compiles(pattern@, case_insensitive),
            r matches Ok(m) ==> m.pattern() == pattern@ && m.case_insensitive() == case_insensitive,
    {
        match build_regex(pattern, case_insensitive) {
            Ok(re) => Ok(Matcher { re, pattern: pattern.to_owned(), case_insensitive }),
            Err(e) => Err(PatternError { message: regex_error_text(&e) }),
        }
    }

    /// Whether the pattern matches somewhere in `text`.
    pub fn is_match(&self, text: &str) -> (r: bool)
        ensures
            r == self.matches(text@),
    {
        regex_is_match(self, text)
    }

    /// The byte ranges of `text` that the pattern matches, from left to right.
    pub fn find_spans(&self, text: &str) -> (r: Vec<(usize, usize)>)
        ensures
            r@ == regex_spans(self.pattern(), self.case_insensitive(), text@),
            spans_fit(encode_utf8(text@), r@),
    {
        regex_find_spans(self, text)
    }
}

/// Calls `Regex::find_iter` on the expression that `m` holds and reads
/// `start` and `end` of each match. The matches depend on the text and on
/// what the expression was compiled from. They are yielded one after
/// another without overlap, each with `start <= end` inside the text and
/// both ends on character boundaries.
#[verifier::external_body]
fn regex_find_spans(m: &Matcher, text: &str) -> (r: Vec<(usize, usize)>)
    ensures
        r@ == regex_spans(m.pattern@, m.case_insensitive, text@),
        spans_fit(encode_utf8(text@), r@),
{
    m.re.find_iter(text).map(|found| (found.start(), found.end())).collect()
}

/// Calls `Regex::is_match` on the expression that `m` holds. The answer
/// depends on the text and on the pattern and case policy that the
/// expression was compiled from, which `Matcher::new` keeps beside it.
#[verifier::external_body]
fn regex_is_match(m: &Matcher, text: &str) -> (r: bool)
    ensures
        r == regex_matches(m.pattern@, m.case_insensitive, text@),
{
    m.re.is_match(text)
}

/// Whether `pattern` compiles, with the given case policy, into a matcher of lines.
pub uninterp spec fn line_pattern_compiles(pattern: Seq<char>, case_insensitive: bool) -> bool;

/// Calls `RegexMatcherBuilder::new`, `case_insensitive` and `build`. Whether
/// the pattern is accepted depends on the pattern and the flag alone;
/// nothing else is claimed.
#[verifier::external_body]
fn build_line_matcher(pattern: &str, case_insensitive: bool) -> (r: Result<
    grep_regex::RegexMatcher,
    grep_regex::Error,
>)
    ensures
        r is Ok <==> line_pattern_compiles(pattern@, case_insensitive),
{
    grep_regex::RegexMatcherBuilder::new().case_insensitive(case_insensitive).build(pattern)
}

/// The text of a `grep_regex::Error`, through its `Display`.
#[verifier::external_body]
fn line_matcher_error_text(e: &grep_regex::Error) -> (s: String) {
    e.to_string()
}

/// A compiled pattern for searching file contents line by line, together
/// with the pattern text and case policy it was compiled from.
pub struct LineMatcher {
    matcher: grep_regex::RegexMatcher,
    pattern: String,
    case_insensitive: bool,
}

impl LineMatcher {
    /// The pattern this matcher was compiled from.
    pub closed spec fn pattern(&self) -> Seq<char> {
        self.pattern@
    }

    /// Whether this matcher disregards case.
    pub closed spec fn case_insensitive(&self) -> bool {
        self.case_insensitive
    }

    /// The compiled matcher, to be handed to the searcher.
    pub fn matcher(&self) -> (m: &grep_regex::RegexMatcher) {
        &self.matcher
    }

    /// The pattern this matcher was compiled from.
    pub fn pattern_text(&self) -> (p: &String)
        ensures
            p@ == self.pattern(),
    {
        &self.pattern
    }

    /// Whether this matcher disregards case.
    pub fn is_case_insensitive(&self) -> (r: bool)
        ensures
            r == self.case_insensitive(),
    {
        self.case_insensitive
    }
}

/// Compiles `pattern` for searching file contents line by line. Fails
/// exactly when the `grep-regex` crate refuses it. The matcher that comes
/// back is the one compiled from this pattern under this case policy, and
/// keeps both beside it.
pub fn line_matcher(pattern: &str, case_insensitive: bool) -> (r: Result<LineMatcher, PatternError>)
    ensures
        r is Ok <==> line_pattern_compiles(pattern@, case_insensitive),
        r matches Ok(m) ==> m.pattern() == pattern@ && m.case_insensitive() == case_insensitive,
{
    match build_line_matcher(pattern, case_insensitive) {
        Ok(matcher) => Ok(LineMatcher { matcher, pattern: pattern.to_owned(), case_insensitive }),
        Err(e) => Err(PatternError { message: line_matcher_error_text(&e) }),
    }
}

/// Compiles the matcher that the name search of a request runs with: of the
/// effective pattern, under the resolved case policy. So an explicit
/// `case_sensitive` keeps the search sensitive whatever else is set, and a
/// literal pattern is searched for in its escaped form.
pub fn name_matcher(cli: &Cli) -> (r: Result<Matcher, PatternError>)
    requires
        cli.pattern is Some,
    ensures
        r is Ok <==> regex_compiles(
            effective_pattern(cli.raw_pattern(), cli.fixed_strings, cli.word_regexp),
            cli.case_insensitive(),
        ),
        r matches Ok(m) ==> m.pattern() == effective_pattern(
            cli.raw_pattern(),
            cli.fixed_strings,
            cli.word_regexp,
        ) && m.case_insensitive() == cli.case_insensitive(),
        r matches Ok(m) ==> (cli.case_sensitive ==> !m.case_insensitive()),
        r matches Ok(m) ==> (!cli.case_sensitive && cli.ignore_case ==> m.case_insensitive()),
{
    let resolved = resolve_pattern(cli);
    Matcher::new(resolved.pattern.as_str(), resolved.case_insensitive)
}

/// Compiles the matcher that the content search of a request runs with: of
/// the effective pattern, under the resolved case policy, as `name_matcher`
/// does for names.
pub fn content_matcher(cli: &Cli) -> (r: Result<LineMatcher, PatternError>)
    requires
        cli.pattern is Some,
    ensures
        r is Ok <==> line_pattern_compiles(
            effective_pattern(cli.raw_pattern(), cli.fixed_strings, cli.word_regexp),
            cli.case_insensitive(),
        ),
        r matches Ok(m) ==> m.pattern() == effective_pattern(
            cli.raw_pattern(),
            cli.fixed_strings,
            cli.word_regexp,
        ) && m.case_insensitive() == cli.case_insensitive(),
        r matches Ok(m) ==> (cli.case_sensitive ==> !m.case_insensitive()),
        r matches Ok(m) ==> (!cli.case_sensitive && cli.ignore_case ==> m.case_insensitive()),
{
    let resolved = resolve_pattern(cli);
    line_matcher(resolved.pattern.as_str(), resolved.case_insensitive)
}

} // verus!
