//! A whole run: which sources are searched, and the report made of what they found.

use vstd::prelude::*;
use crate::cli::Cli;
use crate::cli::FlagConflict;
use crate::cli::Mode;
use crate::git::GitLogMatch;
use crate::git::GitMissing;
use crate::git::LogMatchView;
use crate::order::key_bytes;
use crate::order::key_lt;
use crate::output::block_start;
use crate::output::file_block;
use crate::output::file_blocks;
use crate::output::inside_prefix;
use crate::output::log_block;
use crate::output::mentions;
use crate::output::git_log_blocks;
use crate::output::is_file_blocks;
use crate::output::is_log_blocks;
use crate::output::print_blocks;
use crate::output::rendered;
use crate::pattern::PatternError;
use crate::scope::ScopeError;
use crate::search::ContentMap;
use crate::search::ContentMatchView;
use crate::sorting::BlockView;
use crate::sorting::sorted_from;

verus! {

/// The sources that a run draws on.
#[derive(Clone, Copy, Debug, PartialEq, Eq, Structural)]
pub struct Sources {
    /// File names are matched.
    pub names: bool,
    /// File contents are matched.
    pub content: bool,
    /// Commit messages are matched.
    pub log: bool,
}

/// The sources of a mode. Commit messages are searched where the run is for
/// them alone, and beside files where `wants_log` asks for them.
pub open spec fn sources_of(mode: Mode, wants_log: bool) -> Sources {
    match mode {
        Mode::LogOnly => Sources { names: false, content: false, log: true },
        Mode::NamesOnly => Sources { names: true, content: false, log: wants_log },
        Mode::ContentOnly => Sources { names: false, content: true, log: wants_log },
        Mode::Both => Sources { names: true, content: true, log: wants_log },
    }
}

/// The sources that `mode` draws on.
pub fn sources(mode: Mode, wants_log: bool) -> (s: Sources)
    ensures
        s == sources_of(mode, wants_log),
{
    match mode {
        Mode::LogOnly => Sources { names: false, content: false, log: true },
        Mode::NamesOnly => Sources { names: true, content: false, log: wants_log },
        Mode::ContentOnly => Sources { names: false, content: true, log: wants_log },
        Mode::Both => Sources { names: true, content: true, log: wants_log },
    }
}

/// What a run does: the sources it draws on and the format it reports in.
#[derive(Clone, Copy, Debug, PartialEq, Eq, Structural)]
pub struct Plan {
    /// The sources to collect from.
    pub sources: Sources,
    /// The content matches are reported line by line, coloured, and nothing else is.
    pub coloured: bool,
}

/// Why a run ended without a report.
#[derive(Debug, PartialEq, Eq)]
pub enum RunError {
    /// Two options that exclude each other were given.
    Conflict(FlagConflict),
    /// No pattern was given.
    MissingPattern,
    /// The pattern was refused.
    Pattern(PatternError),
    /// The scope of the walk could not be set up.
    Scope(ScopeError),
    /// The version-control program is not installed, and the run is for log results only.
    GitMissing(GitMissing),
}

impl RunError {
    /// The sentence that reports this error.
    pub open spec fn message(self) -> Seq<char> {
        match self {
            RunError::Conflict(c) => c.message(),
            RunError::MissingPattern => "a pattern is required"@,
            RunError::Pattern(e) => e.message@,
            RunError::Scope(ScopeError::InvalidGlob { message }) => message@,
            RunError::Scope(ScopeError::InvalidType { message }) => message@,
            RunError::GitMissing(_) => "git is not installed"@,
        }
    }

    /// The sentence that reports this error.
    pub fn to_message(&self) -> (s: String)
        ensures
            s@ == self.message(),
    {
        match self {
            RunError::Conflict(c) => c.to_message(),
            RunError::MissingPattern => "a pattern is required".to_owned(),
            RunError::Pattern(e) => e.message.clone(),
            RunError::Scope(ScopeError::InvalidGlob { message }) => message.clone(),
            RunError::Scope(ScopeError::InvalidType { message }) => message.clone(),
            RunError::GitMissing(_) => "git is not installed".to_owned(),
        }
    }
}

/// The plan of a request whose flags agree and that has a pattern. The
/// coloured format is for content matches: where it is asked for and
/// contents are searched, they are the only source.
pub open spec fn plan_of(cli: Cli) -> Plan {
    let s = sources_of(cli.selected_mode(), !cli.no_log || cli.log);
    if s.content && (cli.color matches Some(c) && c@ == "ansi"@) {
        Plan { sources: Sources { names: false, content: true, log: false }, coloured: true }
    } else {
        Plan { sources: s, coloured: false }
    }
}

/// Validates the request and says what the run is to do. Fails, before
/// anything is matched, where options exclude each other or the pattern is
/// missing.
pub fn plan(cli: &Cli) -> (r: Result<Plan, RunError>)
    ensures
        match cli.conflict() {
            Some(c) => r matches Err(RunError::Conflict(found)) && found == c,
            None => if cli.pattern is None {
                r matches Err(RunError::MissingPattern)
            } else {
                r matches Ok(p) && p == plan_of(*cli)
            },
        },
{
    let mode = match cli.mode() {
        Ok(mode) => mode,
        Err(c) => {
            return Err(RunError::Conflict(c));
        },
    };
    if cli.pattern.is_none() {
        return Err(RunError::MissingPattern);
    }
    let s = sources(mode, cli.wants_log());
    if s.content && cli.rg_format() {
        Ok(Plan { sources: Sources { names: false, content: true, log: false }, coloured: true })
    } else {
        Ok(Plan { sources: s, coloured: false })
    }
}

/// What the program is to do with a request.
#[derive(Clone, Copy, Debug, PartialEq, Eq, Structural)]
pub enum Task {
    /// List the file types that are built in, and search nothing.
    ListTypes,
    /// Search as the plan says.
    Search(Plan),
}

/// Says what the program is to do. Listing the file types needs no pattern
/// and is not held up by the other flags; a search is validated as `plan` does.
pub fn task(cli: &Cli) -> (r: Result<Task, RunError>)
    ensures
        cli.type_list ==> r matches Ok(Task::ListTypes),
        !cli.type_list ==> match cli.conflict() {
            Some(c) => r matches Err(RunError::Conflict(found)) && found == c,
            None => if cli.pattern is None {
                r matches Err(RunError::MissingPattern)
            } else {
                r matches Ok(Task::Search(p)) && p == plan_of(*cli)
            },
        },
{
    if cli.type_list {
        return Ok(Task::ListTypes);
    }
    match plan(cli) {
        Ok(p) => Ok(Task::Search(p)),
        Err(e) => Err(e),
    }
}

/// What the collectors found.
#[derive(Debug, PartialEq, Eq)]
pub struct Findings {
    /// The paths whose name matched.
    pub names: Vec<String>,
    /// The files whose contents matched.
    pub content: ContentMap,
    /// The commits whose message matched.
    pub log_matches: Vec<GitLogMatch>,
}

/// The name matches that count: none where names are not a source.
pub open spec fn used_names(sources: Sources, names: Seq<Seq<char>>) -> Set<Seq<char>> {
    if sources.names {
        names.to_set()
    } else {
        Set::empty()
    }
}

/// The content entries that count: none where contents are not a source.
pub open spec fn used_content(sources: Sources, content: Map<Seq<char>, Seq<ContentMatchView>>) -> Map<
    Seq<char>,
    Seq<ContentMatchView>,
> {
    if sources.content {
        content
    } else {
        Map::empty()
    }
}

/// The commit matches that count: none where the log is not a source.
pub open spec fn used_log(sources: Sources, log: Seq<LogMatchView>) -> Seq<LogMatchView> {
    if sources.log {
        log
    } else {
        Seq::empty()
    }
}

/// `lines` is the layout of `files` followed by `logs`, sorted by key.
pub open spec fn laid_out(files: Seq<BlockView>, logs: Seq<BlockView>, lines: Seq<Seq<char>>) -> bool {
    exists|sorted: Seq<BlockView>| #[trigger] sorted_from(files + logs, sorted) && lines == rendered(sorted)
}

/// `lines` is the report of what was found: the blocks of the files and, after
/// them, those of the repositories, sorted by key and laid out as lines.
pub open spec fn is_report(
    sources: Sources,
    names: Seq<Seq<char>>,
    content: Map<Seq<char>, Seq<ContentMatchView>>,
    log: Seq<LogMatchView>,
    lines: Seq<Seq<char>>,
) -> bool {
    exists|files: Seq<BlockView>, logs: Seq<BlockView>|
        {
            &&& is_file_blocks(used_names(sources, names), used_content(sources, content), files)
            &&& is_log_blocks(used_log(sources, log), logs)
            &&& #[trigger] laid_out(files, logs, lines)
        }
}

/// The report is settled by what was found: the same name matches, in
/// whatever order and however often repeated, the same content entries and
/// the same commit matches give the same lines. A run repeated on an
/// unchanged tree prints the same report.
pub proof fn lemma_report_unique(
    sources: Sources,
    names_a: Seq<Seq<char>>,
    names_b: Seq<Seq<char>>,
    content: Map<Seq<char>, Seq<ContentMatchView>>,
    log: Seq<LogMatchView>,
    lines_a: Seq<Seq<char>>,
    lines_b: Seq<Seq<char>>,
)
    requires
        names_a.to_set() == names_b.to_set(),
        is_report(sources, names_a, content, log, lines_a),
        is_report(sources, names_b, content, log, lines_b),
    ensures
        lines_a == lines_b,
{
    let names = used_names(sources, names_a);
    assert(names == used_names(sources, names_b));
    let entries = used_content(sources, content);
    let commits = used_log(sources, log);
    let (fa, la) = choose|files: Seq<BlockView>, logs: Seq<BlockView>|
        {
            &&& is_file_blocks(names, entries, files)
            &&& is_log_blocks(commits, logs)
            &&& #[trigger] laid_out(files, logs, lines_a)
        };
    let (fb, lb) = choose|files: Seq<BlockView>, logs: Seq<BlockView>|
        {
            &&& is_file_blocks(names, entries, files)
            &&& is_log_blocks(commits, logs)
            &&& #[trigger] laid_out(files, logs, lines_b)
        };
    let sa = choose|sorted: Seq<BlockView>| #[trigger]
        sorted_from(fa + la, sorted) && lines_a == rendered(sorted);
    let sb = choose|sorted: Seq<BlockView>| #[trigger]
        sorted_from(fb + lb, sorted) && lines_b == rendered(sorted);
    crate::output::lemma_log_blocks_unique(commits, la, lb);
    assert forall|key: Seq<char>| #[trigger]
        crate::sorting::with_key(sa, key) == crate::sorting::with_key(sb, key) by {
        crate::output::lemma_file_blocks_group(names, entries, fa, key);
        crate::output::lemma_file_blocks_group(names, entries, fb, key);
        crate::sorting::lemma_with_key_concat(fa, la, key);
        crate::sorting::lemma_with_key_concat(fb, lb, key);
        assert(crate::sorting::with_key(sa, key) == crate::sorting::with_key(fa + la, key));
        assert(crate::sorting::with_key(sb, key) == crate::sorting::with_key(fb + lb, key));
    }
    crate::sorting::lemma_same_groups_equal(sa, sb);
}

/// The lines of `first` stand in `lines`, unbroken, and end before the
/// lines of `second` begin, which stand there unbroken too.
pub open spec fn stands_before(lines: Seq<Seq<char>>, first: BlockView, second: BlockView) -> bool {
    exists|a: int, b: int|
        {
            &&& 0 <= a
            &&& a + first.1.len() <= b
            &&& b + second.1.len() <= lines.len()
            &&& #[trigger] lines.subrange(a, a + first.1.len()) == first.1
            &&& #[trigger] lines.subrange(b, b + second.1.len()) == second.1
        }
}

/// `block` is one of the blocks that the report is made of: the block of a
/// file that counts, or of a repository that the commit matches mention.
pub open spec fn reports_block(
    sources: Sources,
    names: Seq<Seq<char>>,
    content: Map<Seq<char>, Seq<ContentMatchView>>,
    log: Seq<LogMatchView>,
    block: BlockView,
) -> bool {
    let counted = used_names(sources, names);
    let entries = used_content(sources, content);
    let commits = used_log(sources, log);
    ||| (counted.contains(block.0) || entries.dom().contains(block.0)) && block == file_block(
        counted,
        entries,
        block.0,
    )
    ||| exists|repo: Seq<char>| #[trigger] mentions(commits, repo) && block == log_block(commits, repo)
}

/// In the lines of a report the blocks stand in the order of their keys: of
/// two blocks of the report, the one whose key sorts strictly first stands
/// first, whole, and ends before the other begins.
pub proof fn lemma_report_order(
    sources: Sources,
    names: Seq<Seq<char>>,
    content: Map<Seq<char>, Seq<ContentMatchView>>,
    log: Seq<LogMatchView>,
    lines: Seq<Seq<char>>,
    first: BlockView,
    second: BlockView,
)
    requires
        is_report(sources, names, content, log, lines),
        reports_block(sources, names, content, log, first),
        reports_block(sources, names, content, log, second),
        key_lt(first.0, second.0),
    ensures
        stands_before(lines, first, second),
{
    let counted = used_names(sources, names);
    let entries = used_content(sources, content);
    let commits = used_log(sources, log);
    let (files, logs) = choose|files: Seq<BlockView>, logs: Seq<BlockView>|
        {
            &&& is_file_blocks(counted, entries, files)
            &&& is_log_blocks(commits, logs)
            &&& #[trigger] laid_out(files, logs, lines)
        };
    let sorted = choose|sorted: Seq<BlockView>| #[trigger]
        sorted_from(files + logs, sorted) && lines == rendered(sorted);
    let all = files + logs;
    assert forall|block: BlockView| reports_block(sources, names, content, log, block) implies all.contains(
        block,
    ) by {
        if (counted.contains(block.0) || entries.dom().contains(block.0)) && block == file_block(
            counted,
            entries,
            block.0,
        ) {
            crate::output::lemma_file_block_present(counted, entries, files, block.0);
            let i = choose|i: int| 0 <= i < files.len() && files[i] == block;
            assert(all[i] == block);
        } else {
            let repo = choose|repo: Seq<char>| #[trigger]
                mentions(commits, repo) && block == log_block(commits, repo);
            crate::output::lemma_log_block_present(commits, logs, repo);
            let i = choose|i: int| 0 <= i < logs.len() && logs[i] == block;
            assert(all[files.len() + i] == block);
        }
    }
    crate::sorting::lemma_sorted_contains(all, sorted, first);
    crate::sorting::lemma_sorted_contains(all, sorted, second);
    let i = choose|i: int| 0 <= i < sorted.len() && sorted[i] == first;
    let j = choose|j: int| 0 <= j < sorted.len() && sorted[j] == second;
    crate::sorting::lemma_smaller_key_first(sorted, i, j);
    crate::output::lemma_blocks_in_layout(sorted, i, j);
    crate::output::lemma_blocks_in_layout(sorted, j, j);
    let a = block_start(sorted, i);
    let b = block_start(sorted, j);
    assert(lines.subrange(a, a + first.1.len()) == first.1);
    assert(lines.subrange(b, b + second.1.len()) == second.1);
}

/// In the lines of a report, the block of a repository comes after the
/// block of every file inside the repository whose path continues `repo/`
/// with a character below DEL; it is not put off to the end of the report.
pub proof fn lemma_log_block_follows_files_in_report(
    sources: Sources,
    names: Seq<Seq<char>>,
    content: Map<Seq<char>, Seq<ContentMatchView>>,
    log: Seq<LogMatchView>,
    lines: Seq<Seq<char>>,
    repo: Seq<char>,
    first: char,
    tail: Seq<char>,
)
    requires
        is_report(sources, names, content, log, lines),
        first < '\u{7f}',
        used_names(sources, names).contains(inside_prefix(repo) + seq![first] + tail) || used_content(
            sources,
            content,
        ).dom().contains(inside_prefix(repo) + seq![first] + tail),
        mentions(used_log(sources, log), repo),
    ensures
        stands_before(
            lines,
            file_block(
                used_names(sources, names),
                used_content(sources, content),
                inside_prefix(repo) + seq![first] + tail,
            ),
            log_block(used_log(sources, log), repo),
        ),
{
    let path = inside_prefix(repo) + seq![first] + tail;
    crate::output::lemma_log_block_follows_files(repo, first, tail);
    lemma_report_order(
        sources,
        names,
        content,
        log,
        lines,
        file_block(used_names(sources, names), used_content(sources, content), path),
        log_block(used_log(sources, log), repo),
    );
}

/// In the lines of a report, the block of a repository comes before the
/// block of every file that sorts after `repo/` without lying inside it,
/// such as the files of a sibling directory whose name sorts later.
pub proof fn lemma_log_block_precedes_later_in_report(
    sources: Sources,
    names: Seq<Seq<char>>,
    content: Map<Seq<char>, Seq<ContentMatchView>>,
    log: Seq<LogMatchView>,
    lines: Seq<Seq<char>>,
    repo: Seq<char>,
    other: Seq<char>,
)
    requires
        is_report(sources, names, content, log, lines),
        key_lt(inside_prefix(repo), other),
        !key_bytes(inside_prefix(repo)).is_prefix_of(key_bytes(other)),
        used_names(sources, names).contains(other) || used_content(sources, content).dom().contains(other),
        mentions(used_log(sources, log), repo),
    ensures
        stands_before(
            lines,
            log_block(used_log(sources, log), repo),
            file_block(used_names(sources, names), used_content(sources, content), other),
        ),
{
    crate::output::lemma_log_block_precedes_later(repo, other);
    lemma_report_order(
        sources,
        names,
        content,
        log,
        lines,
        log_block(used_log(sources, log), repo),
        file_block(used_names(sources, names), used_content(sources, content), other),
    );
}

/// Makes the report of `findings`, drawing on `sources` only.
pub fn report(sources: Sources, findings: &Findings) -> (lines: Vec<String>)
    ensures
        is_report(
            sources,
            findings.names.deep_view(),
            findings.content@,
            findings.log_matches.deep_view(),
            lines.deep_view(),
        ),
{
    let no_names: Vec<String> = Vec::new();
    let no_content = ContentMap::new();
    let no_log: Vec<GitLogMatch> = Vec::new();
    proof {
        assert(no_names.deep_view() =~= Seq::<Seq<char>>::empty());
        assert(no_names.deep_view().to_set() =~= Set::<Seq<char>>::empty());
        assert(no_log.deep_view() =~= Seq::<LogMatchView>::empty());
    }
    let names = if sources.names {
        &findings.names
    } else {
        &no_names
    };
    let content = if sources.content {
        &findings.content
    } else {
        &no_content
    };
    let log = if sources.log {
        &findings.log_matches
    } else {
        &no_log
    };
    let mut blocks = file_blocks(names, content);
    let log_slice = log.as_slice();
    assert(log_slice.deep_view() =~= log.deep_view());
    let mut log_blocks = git_log_blocks(log_slice);
    let ghost files = blocks.deep_view();
    let ghost logs = log_blocks.deep_view();
    blocks.append(&mut log_blocks);
    assert(blocks.deep_view() =~= files + logs);
    let lines = print_blocks(&mut blocks);
    proof {
        assert(sorted_from(files + logs, blocks.deep_view()));
        assert(laid_out(files, logs, lines.deep_view()));
    }
    lines
}

/// Validates the request, then makes the report of `findings` for the mode
/// that the flags select. Fails, before anything is matched, where
/// `log_only` is combined with an option that it does not go with.
pub fn run(cli: &Cli, findings: &Findings) -> (r: Result<Vec<String>, FlagConflict>)
    ensures
        match cli.conflict() {
            Some(c) => r == Err::<Vec<String>, FlagConflict>(c),
            None => r matches Ok(lines) && is_report(
                sources_of(cli.selected_mode(), !cli.no_log || cli.log),
                findings.names.deep_view(),
                findings.content@,
                findings.log_matches.deep_view(),
                lines.deep_view(),
            ),
        },
{
    match cli.mode() {
        Err(c) => Err(c),
        Ok(mode) => Ok(report(sources(mode, cli.wants_log()), findings)),
    }
}

/// The status with which the program ends: zero after a run that reported
/// no error, also where nothing matched, and one after any error.
pub fn exit_code(failed: bool) -> (code: i32)
    ensures
        code == if failed {
            1i32
        } else {
            0i32
        },
{
    if failed {
        1
    } else {
        0
    }
}

} // verus!
