//! Commit-history matches and the repositories they come from.

use vstd::prelude::*;
use vstd::utf8::decode_utf8;
use vstd::utf8::valid_utf8;
use vstd::string::StringExecFns;
use crate::order::KeySet;
use crate::order::strictly_ascending;
use crate::text::decode_lossy;
use crate::text::find_char;
use crate::text::lines_of;
use crate::text::position_of;
use crate::text::split_lines;
use crate::text::string_of;
use crate::text::to_chars;
use crate::text::trim_space;
use crate::text::trimmed;
use crate::text::utf8_lossy;

verus! {

/// One commit whose message matched.
#[derive(Debug, PartialEq, Eq)]
pub struct GitLogMatch {
    /// The repository the commit belongs to.
    pub repo: String,
    /// The abbreviated commit hash.
    pub hash: String,
    /// The commit date, where the log format carries one.
    pub date: Option<String>,
    /// The subject line of the commit.
    pub message: String,
}

/// A commit match as the contracts see it.
pub struct LogMatchView {
    pub repo: Seq<char>,
    pub hash: Seq<char>,
    pub date: Option<Seq<char>>,
    pub message: Seq<char>,
}

impl View for GitLogMatch {
    type V = LogMatchView;

    open spec fn view(&self) -> LogMatchView {
        LogMatchView {
            repo: self.repo@,
            hash: self.hash@,
            date: match self.date {
                Some(d) => Some(d@),
                None => None,
            },
            message: self.message@,
        }
    }
}

impl DeepView for GitLogMatch {
    type V = LogMatchView;

    open spec fn deep_view(&self) -> LogMatchView {
        self@
    }
}

/// The arguments that ask the version-control program for the top level of
/// the work tree around `search_path`.
pub open spec fn toplevel_query(search_path: Seq<char>) -> Seq<Seq<char>> {
    seq!["-C"@, search_path, "rev-parse"@, "--show-toplevel"@]
}

/// The arguments that ask for the top level of the work tree around `search_path`.
pub fn toplevel_args(search_path: &str) -> (args: Vec<String>)
    ensures
        args.deep_view() == toplevel_query(search_path@),
{
    let mut args: Vec<String> = Vec::new();
    args.push("-C".to_owned());
    args.push(search_path.to_owned());
    args.push("rev-parse".to_owned());
    args.push("--show-toplevel".to_owned());
    assert(args.deep_view() =~= toplevel_query(search_path@));
    args
}

/// The path that the answer to the top-level query names: the answer
/// decoded leniently, without the white space around it.
pub fn toplevel_path(stdout: &[u8]) -> (path: String)
    ensures
        path@ == trim_space(utf8_lossy(stdout@)),
        valid_utf8(stdout@) ==> path@ == trim_space(decode_utf8(stdout@)),
{
    let text = decode_lossy(stdout);
    trimmed(text.as_str())
}

/// The arguments of a log query in `repo` for commits whose message matches
/// `pattern`. The dated format prints hash, date and subject; the other one
/// prints hash and subject. Either way one space parts the fields.
pub open spec fn log_query(repo: Seq<char>, pattern: Seq<char>, case_insensitive: bool, dated: bool) -> Seq<
    Seq<char>,
> {
    let head = if dated {
        seq!["-C"@, repo, "log"@, "--format=%h %ad %s"@, "--date=short"@, "-E"@]
    } else {
        seq!["-C"@, repo, "log"@, "--oneline"@, "-E"@]
    };
    let case: Seq<Seq<char>> = if case_insensitive {
        seq!["-i"@]
    } else {
        Seq::empty()
    };
    head + case + seq!["--grep"@, pattern]
}

/// The arguments of a log query in `repo` for `pattern`.
pub fn git_log_args(repo: &str, pattern: &str, case_insensitive: bool, dated: bool) -> (args: Vec<String>)
    ensures
        args.deep_view() == log_query(repo@, pattern@, case_insensitive, dated),
{
    let mut args: Vec<String> = Vec::new();
    args.push("-C".to_owned());
    args.push(repo.to_owned());
    args.push("log".to_owned());
    if dated {
        args.push("--format=%h %ad %s".to_owned());
        args.push("--date=short".to_owned());
    } else {
        args.push("--oneline".to_owned());
    }
    args.push("-E".to_owned());
    if case_insensitive {
        args.push("-i".to_owned());
    }
    args.push("--grep".to_owned());
    args.push(pattern.to_owned());
    assert(args.deep_view() =~= log_query(repo@, pattern@, case_insensitive, dated));
    args
}

/// What one line of log output says. The first space ends the hash. In the
/// dated format the second space ends the date. The rest is the subject,
/// spaces and all. A line with too few spaces says nothing.
pub open spec fn parsed_line(repo: Seq<char>, line: Seq<char>, dated: bool) -> Option<LogMatchView> {
    let a = find_char(line, ' ', 0);
    let b = find_char(line, ' ', a + 1);
    if a >= line.len() {
        None
    } else if !dated {
        Some(
            LogMatchView {
                repo,
                hash: line.subrange(0, a),
                date: None,
                message: line.subrange(a + 1, line.len() as int),
            },
        )
    } else if b >= line.len() {
        None
    } else {
        Some(
            LogMatchView {
                repo,
                hash: line.subrange(0, a),
                date: Some(line.subrange(a + 1, b)),
                message: line.subrange(b + 1, line.len() as int),
            },
        )
    }
}

/// Reads one line of log output.
pub fn parse_log_line(repo: &str, line: &Vec<char>, dated: bool) -> (r: Option<GitLogMatch>)
    ensures
        r.deep_view() == parsed_line(repo@, line@, dated),
{
    let a = position_of(line, ' ', 0);
    if a >= line.len() {
        return None;
    }
    if !dated {
        return Some(
            GitLogMatch {
                repo: repo.to_owned(),
                hash: string_of(line, 0, a),
                date: None,
                message: string_of(line, a + 1, line.len()),
            },
        );
    }
    let b = position_of(line, ' ', a + 1);
    if b >= line.len() {
        return None;
    }
    Some(
        GitLogMatch {
            repo: repo.to_owned(),
            hash: string_of(line, 0, a),
            date: Some(string_of(line, a + 1, b)),
            message: string_of(line, b + 1, line.len()),
        },
    )
}

/// What the lines of a log output say, line by line.
pub open spec fn parsed_lines(repo: Seq<char>, lines: Seq<Seq<char>>, dated: bool) -> Seq<LogMatchView>
    decreases lines.len(),
{
    if lines.len() == 0 {
        Seq::empty()
    } else {
        let rest = parsed_lines(repo, lines.drop_last(), dated);
        match parsed_line(repo, lines.last(), dated) {
            Some(m) => rest.push(m),
            None => rest,
        }
    }
}

/// What a log output says: it is decoded leniently, cut into lines, and each
/// line read by itself.
pub open spec fn parsed_output(repo: Seq<char>, stdout: Seq<u8>, dated: bool) -> Seq<LogMatchView> {
    parsed_lines(repo, lines_of(utf8_lossy(stdout)), dated)
}

/// Reads the output of a log query in `repo` and adds its commits to `matches`.
pub fn parse_log_output(repo: &str, stdout: &[u8], dated: bool, matches: &mut Vec<GitLogMatch>)
    ensures
        final(matches).deep_view() == old(matches).deep_view() + parsed_output(repo@, stdout@, dated),
        valid_utf8(stdout@) ==> final(matches).deep_view() == old(matches).deep_view() + parsed_lines(
            repo@,
            lines_of(decode_utf8(stdout@)),
            dated,
        ),
{
    let ghost found = matches.deep_view();
    let text = decode_lossy(stdout);
    let chars = to_chars(text.as_str());
    let lines = split_lines(&chars);
    let ghost ls = lines.deep_view();
    let mut i: usize = 0;
    assert(matches.deep_view() =~= found + parsed_lines(repo@, ls.take(0), dated));
    while i < lines.len()
        invariant
            i <= lines.len(),
            ls == lines.deep_view(),
            matches.deep_view() == found + parsed_lines(repo@, ls.take(i as int), dated),
        decreases lines.len() - i,
    {
        let ghost before = matches.deep_view();
        proof {
            assert(ls.take(i + 1).drop_last() =~= ls.take(i as int));
            assert(ls.take(i + 1).last() == ls[i as int]);
            assert(lines[i as int].deep_view() =~= lines[i as int]@);
        }
        match parse_log_line(repo, &lines[i], dated) {
            Some(m) => {
                matches.push(m);
                assert(matches.deep_view() =~= before.push(m.deep_view()));
            },
            None => {},
        }
        i += 1;
    }
    assert(ls.take(lines.len() as int) =~= ls);
}

/// How a log query in one repository ended.
#[derive(Debug, PartialEq, Eq)]
pub enum GitOutcome {
    /// The version-control program is not installed.
    Missing,
    /// The query could not be run.
    Failed { message: String },
    /// The query ran; `success` tells whether it exited with status zero.
    Exited { success: bool, stdout: Vec<u8> },
}

impl GitOutcome {
    /// Whether this outcome ends the log search: the program is missing, so
    /// no further query can bring anything.
    pub fn ends_search(&self) -> (r: bool)
        ensures
            r == (*self is Missing),
    {
        match self {
            GitOutcome::Missing => true,
            _ => false,
        }
    }
}

/// A repository and the way its log query ended.
#[derive(Debug, PartialEq, Eq)]
pub struct RepoRun {
    /// The repository that was queried.
    pub repo: String,
    /// How the query ended.
    pub outcome: GitOutcome,
}

/// The version-control program is not installed, and the run cannot do without.
#[derive(Clone, Copy, Debug, PartialEq, Eq, Structural)]
pub struct GitMissing;

/// The position of the first query, at or after `from`, that found the
/// program missing, or the number of queries where none did.
pub open spec fn first_missing(runs: Seq<RepoRun>, from: int) -> int
    decreases runs.len() - from,
{
    if from < 0 || from >= runs.len() {
        runs.len() as int
    } else if runs[from].outcome is Missing {
        from
    } else {
        first_missing(runs, from + 1)
    }
}

/// The commits that the queries of `runs` found. A query that could not be
/// run or did not exit with status zero found none.
pub open spec fn collected(runs: Seq<RepoRun>, dated: bool) -> Seq<LogMatchView>
    decreases runs.len(),
{
    if runs.len() == 0 {
        Seq::empty()
    } else {
        let rest = collected(runs.drop_last(), dated);
        match runs.last().outcome {
            GitOutcome::Exited { success, stdout } => if success {
                rest + parsed_output(runs.last().repo@, stdout@, dated)
            } else {
                rest
            },
            _ => rest,
        }
    }
}

/// The note left for a query that could not be run.
pub open spec fn query_failure(repo: Seq<char>, message: Seq<char>) -> Seq<char> {
    "git log in "@ + repo + ": "@ + message
}

/// The note left where log results are wanted but not needed and the
/// program is missing.
pub open spec fn missing_note() -> Seq<char> {
    "git not found, skipping log search"@
}

/// The notes for the queries of `runs` that could not be run.
pub open spec fn query_failures(runs: Seq<RepoRun>) -> Seq<Seq<char>>
    decreases runs.len(),
{
    if runs.len() == 0 {
        Seq::empty()
    } else {
        let rest = query_failures(runs.drop_last());
        match runs.last().outcome {
            GitOutcome::Failed { message } => rest.push(query_failure(runs.last().repo@, message@)),
            _ => rest,
        }
    }
}

/// Gathers the commits found by the log queries, repository by repository.
///
/// A query that could not be run is noted and passed over, one that exited
/// with a failure is passed over in silence. The first query that found the
/// program missing ends the search: with an error where the run is for log
/// results only, else with a note and what was found until then.
pub fn search_git_log(runs: &Vec<RepoRun>, log_only: bool, dated: bool, diagnostics: &mut Vec<String>) -> (r:
    Result<Vec<GitLogMatch>, GitMissing>)
    ensures
        r is Err <==> log_only && first_missing(runs@, 0) < runs.len(),
        r matches Ok(matches) ==> matches.deep_view() == collected(
            runs@.take(first_missing(runs@, 0)),
            dated,
        ),
        final(diagnostics).deep_view() == old(diagnostics).deep_view() + query_failures(
            runs@.take(first_missing(runs@, 0)),
        ) + (if r is Ok && first_missing(runs@, 0) < runs.len() {
            seq![missing_note()]
        } else {
            Seq::<Seq<char>>::empty()
        }),
{
    let ghost noted = diagnostics.deep_view();
    let mut matches: Vec<GitLogMatch> = Vec::new();
    let mut i: usize = 0;
    proof {
        assert(matches.deep_view() =~= collected(runs@.take(0), dated));
        assert(diagnostics.deep_view() =~= noted + query_failures(runs@.take(0)));
    }
    while i < runs.len()
        invariant
            i <= runs.len(),
            noted == old(diagnostics).deep_view(),
            first_missing(runs@, 0) == first_missing(runs@, i as int),
            matches.deep_view() == collected(runs@.take(i as int), dated),
            diagnostics.deep_view() == noted + query_failures(runs@.take(i as int)),
        decreases runs.len() - i,
    {
        let ghost before_notes = diagnostics.deep_view();
        let ghost before = matches.deep_view();
        proof {
            assert(runs@.take(i + 1).drop_last() =~= runs@.take(i as int));
            assert(runs@.take(i + 1).last() == runs@[i as int]);
        }
        let run = &runs[i];
        match &run.outcome {
            GitOutcome::Missing => {
                if log_only {
                    assert(diagnostics.deep_view() =~= noted + query_failures(runs@.take(i as int))
                        + Seq::<Seq<char>>::empty());
                    return Err(GitMissing);
                }
                diagnostics.push("git not found, skipping log search".to_owned());
                assert(diagnostics.deep_view() =~= noted + query_failures(runs@.take(i as int))
                    + seq![missing_note()]);
                return Ok(matches);
            },
            GitOutcome::Failed { message } => {
                let mut note = String::new();
                note.append("git log in ");
                note.append(run.repo.as_str());
                note.append(": ");
                note.append(message.as_str());
                assert(note@ =~= query_failure(run.repo@, message@));
                diagnostics.push(note);
                assert(diagnostics.deep_view() =~= before_notes.push(query_failure(run.repo@, message@)));
            },
            GitOutcome::Exited { success, stdout } => {
                if *success {
                    parse_log_output(run.repo.as_str(), stdout.as_slice(), dated, &mut matches);
                }
            },
        }
        i += 1;
    }
    proof {
        assert(runs@.take(runs.len() as int) =~= runs@);
        assert(diagnostics.deep_view() =~= noted + query_failures(runs@) + Seq::<Seq<char>>::empty());
    }
    Ok(matches)
}

/// A directory that may be a repository to report on.
#[derive(Debug, PartialEq, Eq)]
pub struct RepoCandidate {
    /// The path under which the repository is reported.
    pub path: String,
    /// The path in canonical form, where it could be resolved.
    pub canonical: Option<String>,
}

impl RepoCandidate {
    /// The canonical path, where there is one.
    pub open spec fn canon(self) -> Option<Seq<char>> {
        match self.canonical {
            Some(c) => Some(c@),
            None => None,
        }
    }
}

/// What the query for the work tree around the search root brought.
#[derive(Debug, PartialEq, Eq)]
pub enum ToplevelProbe {
    /// The version-control program is not installed.
    Missing,
    /// The search root lies in no work tree.
    Outside,
    /// The search root lies in the work tree of `repo`.
    Inside { repo: RepoCandidate },
}

/// The candidates in the order of discovery: the work tree around the
/// search root, then the repositories right below the root.
pub open spec fn candidates(probe: ToplevelProbe, children: Seq<RepoCandidate>) -> Seq<RepoCandidate> {
    match probe {
        ToplevelProbe::Inside { repo } => seq![repo] + children,
        _ => children,
    }
}

/// The candidate at `i` resolves, and to a path that none before it resolves to.
pub open spec fn is_first(cands: Seq<RepoCandidate>, i: int) -> bool {
    &&& cands[i].canon() is Some
    &&& forall|j: int| 0 <= j < i ==> (#[trigger] cands[j]).canon() != cands[i].canon()
}

/// The paths of the candidates that are the first of their canonical path,
/// in the order of discovery.
pub open spec fn discovered(cands: Seq<RepoCandidate>) -> Seq<Seq<char>>
    decreases cands.len(),
{
    if cands.len() == 0 {
        Seq::empty()
    } else if is_first(cands, cands.len() - 1) {
        discovered(cands.drop_last()).push(cands.last().path@)
    } else {
        discovered(cands.drop_last())
    }
}

/// The canonical paths that the candidates resolve to.
pub open spec fn canonical_paths(cands: Seq<RepoCandidate>) -> Set<Seq<char>>
    decreases cands.len(),
{
    if cands.len() == 0 {
        Set::empty()
    } else {
        match cands.last().canon() {
            Some(c) => canonical_paths(cands.drop_last()).insert(c),
            None => canonical_paths(cands.drop_last()),
        }
    }
}

/// A path is among the canonical paths exactly if a candidate resolves to it.
pub proof fn lemma_canonical_paths(cands: Seq<RepoCandidate>)
    ensures
        canonical_paths(cands).finite(),
        forall|c: Seq<char>| #[trigger]
            canonical_paths(cands).contains(c) <==> exists|j: int|
                0 <= j < cands.len() && (#[trigger] cands[j]).canon() == Some(c),
    decreases cands.len(),
{
    if cands.len() > 0 {
        let front = cands.drop_last();
        lemma_canonical_paths(front);
        assert forall|c: Seq<char>| #[trigger]
            canonical_paths(cands).contains(c) <==> exists|j: int|
                0 <= j < cands.len() && (#[trigger] cands[j]).canon() == Some(c) by {
            if canonical_paths(cands).contains(c) {
                if canonical_paths(front).contains(c) {
                    let j = choose|j: int| 0 <= j < front.len() && (#[trigger] front[j]).canon() == Some(c);
                    assert(cands[j].canon() == Some(c));
                } else {
                    assert(cands[cands.len() - 1].canon() == Some(c));
                }
            }
            if exists|j: int| 0 <= j < cands.len() && (#[trigger] cands[j]).canon() == Some(c) {
                let j = choose|j: int| 0 <= j < cands.len() && (#[trigger] cands[j]).canon() == Some(c);
                if j < front.len() {
                    assert(front[j].canon() == Some(c));
                }
            }
        }
    }
}

/// Discovery reports one repository for each canonical path: candidates
/// that resolve to the same path, such as the search root itself and a link
/// to it among its children, yield one entry together.
pub proof fn lemma_one_repo_per_canonical_path(cands: Seq<RepoCandidate>)
    ensures
        discovered(cands).len() == canonical_paths(cands).len(),
    decreases cands.len(),
{
    if cands.len() > 0 {
        let front = cands.drop_last();
        lemma_one_repo_per_canonical_path(front);
        lemma_canonical_paths(front);
        match cands.last().canon() {
            Some(c) => {
                if canonical_paths(front).contains(c) {
                    let j = choose|j: int| 0 <= j < front.len() && (#[trigger] front[j]).canon() == Some(c);
                    assert(cands[j].canon() == cands[cands.len() - 1].canon());
                    assert(canonical_paths(front).insert(c) =~= canonical_paths(front));
                } else {
                    assert forall|j: int| 0 <= j < cands.len() - 1 implies (#[trigger] cands[j]).canon()
                        != cands[cands.len() - 1].canon() by {
                        assert(front[j] == cands[j]);
                    }
                }
            },
            None => {},
        }
    }
}

/// The paths of the candidates that are the first of their canonical path.
fn keep_first(cands: &Vec<RepoCandidate>) -> (repos: Vec<String>)
    ensures
        repos.deep_view() == discovered(cands@),
{
    let mut repos: Vec<String> = Vec::new();
    let mut seen = KeySet::new();
    let mut i: usize = 0;
    assert(repos.deep_view() =~= discovered(cands@.take(0)));
    while i < cands.len()
        invariant
            i <= cands.len(),
            repos.deep_view() == discovered(cands@.take(i as int)),
            strictly_ascending(seen@),
            forall|c: Seq<char>| #[trigger]
                seen@.contains(c) <==> exists|j: int| 0 <= j < i && (#[trigger] cands[j]).canon() == Some(c),
        decreases cands.len() - i,
    {
        let ghost before = repos.deep_view();
        let ghost old_seen = seen@;
        let ghost next = cands@.take(i + 1);
        proof {
            assert(next.drop_last() =~= cands@.take(i as int));
            assert(forall|j: int| 0 <= j <= i ==> next[j] == cands[j]);
        }
        let cand = &cands[i];
        let is_new = match &cand.canonical {
            Some(canonical) => seen.insert(canonical.as_str()).0,
            None => false,
        };
        if is_new {
            repos.push(cand.path.clone());
            assert(repos.deep_view() =~= before.push(cand.path@));
        }
        proof {
            assert(is_new <==> is_first(next, i as int)) by {
                if cand.canon() is Some {
                    let c = cand.canon()->0;
                    if old_seen.contains(c) {
                        let j = choose|j: int| 0 <= j < i && (#[trigger] cands[j]).canon() == Some(c);
                        assert(next[j].canon() == next[i as int].canon());
                    }
                }
            }
            assert forall|c: Seq<char>| #[trigger]
                seen@.contains(c) <==> exists|j: int|
                    0 <= j < i + 1 && (#[trigger] cands[j]).canon() == Some(c) by {
                if old_seen.contains(c) {
                    let j = choose|j: int| 0 <= j < i && (#[trigger] cands[j]).canon() == Some(c);
                    assert(cands[j].canon() == Some(c));
                }
                if cand.canon() == Some(c) {
                    assert(cands[i as int].canon() == Some(c));
                }
                if exists|j: int| 0 <= j < i + 1 && (#[trigger] cands[j]).canon() == Some(c) {
                    let j = choose|j: int| 0 <= j < i + 1 && (#[trigger] cands[j]).canon() == Some(c);
                    if j < i {
                        assert(old_seen.contains(c));
                    }
                }
            }
        }
        i += 1;
    }
    assert(cands@.take(cands.len() as int) =~= cands@);
    repos
}

/// Settles which repositories are reported on. The work tree around the
/// search root comes first, then the repositories right below the root, and
/// of several candidates with one canonical path only the first is kept. A
/// candidate whose path could not be resolved is left out.
///
/// Without the version-control program the work tree around the root is
/// unknown. That is an error where the run is for log results only, and
/// otherwise no hindrance.
pub fn discover_git_repos(probe: ToplevelProbe, children: Vec<RepoCandidate>, log_only: bool) -> (r: Result<
    Vec<String>,
    GitMissing,
>)
    ensures
        r is Err <==> log_only && probe is Missing,
        r matches Ok(repos) ==> repos.deep_view() == discovered(candidates(probe, children@)),
{
    let mut cands = children;
    match probe {
        ToplevelProbe::Missing => {
            if log_only {
                return Err(GitMissing);
            }
        },
        ToplevelProbe::Outside => {},
        ToplevelProbe::Inside { repo } => {
            cands.insert(0, repo);
            assert(cands@ =~= seq![repo] + children@);
        },
    }
    Ok(keep_first(&cands))
}

} // verus!
