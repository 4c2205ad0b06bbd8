//! Matches in file names and file contents: what is kept of each file.

use vstd::prelude::*;
use vstd::utf8::decode_utf8;
use vstd::utf8::valid_utf8;
use vstd::string::StringExecFns;
use crate::order::KeySet;
use crate::order::lemma_strictly_ascending_distinct;
use crate::order::strictly_ascending;
use crate::cli::Cli;
use crate::pattern::Matcher;
use crate::pattern::PatternError;
use crate::pattern::effective_pattern;
use crate::pattern::name_matcher;
use crate::pattern::regex_compiles;
use crate::pattern::regex_matches;
use crate::text::decode_lossy;
use crate::text::string_of;
use crate::text::to_chars;
use crate::text::trim_end;
use crate::text::trim_end_len;
use crate::text::utf8_lossy;

verus! {

/// What is reported of a file's contents.
#[derive(Debug, PartialEq, Eq)]
pub enum ContentMatch {
    /// A matching line: its number, counted from one, and its text.
    Line { line_number: u64, line: String },
    /// The file matched but holds binary data; its lines are not shown.
    BinaryFile,
}

/// A content match as the contracts see it.
pub enum ContentMatchView {
    Line { line_number: u64, line: Seq<char> },
    BinaryFile,
}

impl View for ContentMatch {
    type V = ContentMatchView;

    open spec fn view(&self) -> ContentMatchView {
        match self {
            ContentMatch::Line { line_number, line } => ContentMatchView::Line {
                line_number: *line_number,
                line: line@,
            },
            ContentMatch::BinaryFile => ContentMatchView::BinaryFile,
        }
    }
}

impl DeepView for ContentMatch {
    type V = ContentMatchView;

    open spec fn deep_view(&self) -> ContentMatchView {
        self@
    }
}

/// The text shown for a matched line given as raw bytes: decoded leniently,
/// then without the line feeds and, after those, the carriage returns at its end.
pub open spec fn line_text(bytes: Seq<u8>) -> Seq<char> {
    trim_end(trim_end(utf8_lossy(bytes), '\n'), '\r')
}

/// The entry that a file gets in the results. Binary data after a match
/// collapses the entry to a single marker; binary data without a match hides
/// the file, as does a text file without a match.
pub open spec fn file_entry(matches: Seq<ContentMatchView>, saw_binary: bool) -> Option<
    Seq<ContentMatchView>,
> {
    if matches.len() == 0 {
        None
    } else if saw_binary {
        Some(seq![ContentMatchView::BinaryFile])
    } else {
        Some(matches)
    }
}

/// A matching line with a number counted from one.
pub open spec fn is_numbered_line(m: ContentMatchView) -> bool {
    m matches ContentMatchView::Line { line_number, .. } && line_number >= 1
}

/// Every match of `matches` is a numbered line; none is the binary marker.
pub open spec fn lines_only(matches: Seq<ContentMatchView>) -> bool {
    forall|i: int| 0 <= i < matches.len() ==> is_numbered_line(#[trigger] matches[i])
}

/// `entry` is what a file may contribute: one or more numbered lines, or
/// the binary marker alone, never lines and marker together.
pub open spec fn entry_ok(entry: Seq<ContentMatchView>) -> bool {
    entry.len() > 0 && (lines_only(entry) || entry == seq![ContentMatchView::BinaryFile])
}

/// The entry of a file is well formed whenever the matches it is made of
/// are numbered lines.
pub proof fn lemma_file_entry_ok(matches: Seq<ContentMatchView>, saw_binary: bool)
    requires
        lines_only(matches),
    ensures
        file_entry(matches, saw_binary) matches Some(entry) ==> entry_ok(entry),
{
}

/// A match was reported without a line number counted from one.
#[derive(Clone, Copy, Debug, PartialEq, Eq, Structural)]
pub struct NoLineNumber;

/// Collects what the search of one file reports: numbered lines, and
/// whether binary data was met.
#[derive(Debug, PartialEq, Eq)]
pub struct ContentSink {
    matches: Vec<ContentMatch>,
    saw_binary: bool,
}

impl ContentSink {
    #[verifier::type_invariant]
    closed spec fn holds_lines(&self) -> bool {
        lines_only(self.matches.deep_view())
    }

    /// The matching lines seen so far.
    pub closed spec fn lines(&self) -> Seq<ContentMatchView> {
        self.matches.deep_view()
    }

    /// Whether the search ran into binary data.
    pub closed spec fn binary(&self) -> bool {
        self.saw_binary
    }

    /// A sink that has seen nothing.
    pub fn new() -> (sink: ContentSink)
        ensures
            sink.lines() == Seq::<ContentMatchView>::empty(),
            !sink.binary(),
    {
        let matches: Vec<ContentMatch> = Vec::new();
        assert(matches.deep_view() =~= Seq::<ContentMatchView>::empty());
        ContentSink { matches, saw_binary: false }
    }

    /// The matching lines seen so far.
    pub fn matches(&self) -> (matches: &Vec<ContentMatch>)
        ensures
            matches.deep_view() == self.lines(),
            lines_only(self.lines()),
    {
        proof {
            use_type_invariant(self);
        }
        &self.matches
    }

    /// Whether the search ran into binary data.
    pub fn saw_binary(&self) -> (r: bool)
        ensures
            r == self.binary(),
    {
        self.saw_binary
    }

    /// Records a matching line under its number and returns `true`: the
    /// search is to go on. A match without a number, or with the number
    /// zero, is refused and leaves the sink as it is: lines are counted
    /// from one.
    pub fn matched(&mut self, line_number: Option<u64>, bytes: &[u8]) -> (r: Result<bool, NoLineNumber>)
        ensures
            final(self).binary() == old(self).binary(),
            r is Ok <==> (line_number matches Some(n) && n >= 1),
            r matches Ok(keep_going) ==> keep_going && final(self).lines() == old(self).lines().push(
                ContentMatchView::Line { line_number: line_number->0, line: line_text(bytes@) },
            ),
            r is Err ==> final(self).lines() == old(self).lines(),
            r is Ok && valid_utf8(bytes@) ==> line_text(bytes@) == trim_end(
                trim_end(decode_utf8(bytes@), '\n'),
                '\r',
            ),
    {
        let number = match line_number {
            Some(n) => n,
            None => 0,
        };
        if number == 0 {
            return Err(NoLineNumber);
        }
        let decoded = decode_lossy(bytes);
        let chars = to_chars(decoded.as_str());
        let without_lf = trim_end_len(&chars, chars.len(), '\n');
        let without_cr = trim_end_len(&chars, without_lf, '\r');
        let line = string_of(&chars, 0, without_cr);
        proof {
            assert(chars@.take(chars.len() as int) =~= chars@);
            assert(chars@.subrange(0, without_cr as int) =~= chars@.take(without_cr as int));
        }
        let mut taken = ContentSink::new();
        core::mem::swap(self, &mut taken);
        proof {
            use_type_invariant(&taken);
        }
        let ContentSink { mut matches, saw_binary } = taken;
        let ghost before = matches.deep_view();
        matches.push(ContentMatch::Line { line_number: number, line });
        proof {
            let added = ContentMatchView::Line { line_number: number, line: line_text(bytes@) };
            assert(matches.deep_view() =~= before.push(added));
            assert(is_numbered_line(added));
        }
        *self = ContentSink { matches, saw_binary };
        Ok(true)
    }

    /// Records how the search ended: with the offset of a binary byte where
    /// one was met.
    pub fn finish(&mut self, binary_byte_offset: Option<u64>)
        ensures
            final(self).lines() == old(self).lines(),
            final(self).binary() == (old(self).binary() || binary_byte_offset is Some),
    {
        proof {
            use_type_invariant(&*self);
        }
        if binary_byte_offset.is_some() {
            self.saw_binary = true;
        }
    }

    /// The entry that the file gets, if it gets one: its lines, or the
    /// marker alone where binary data followed a match.
    pub fn into_entry(self) -> (entry: Option<Vec<ContentMatch>>)
        ensures
            entry.deep_view() == file_entry(self.lines(), self.binary()),
            entry matches Some(e) ==> entry_ok(e.deep_view()),
    {
        proof {
            use_type_invariant(&self);
            lemma_file_entry_ok(self.lines(), self.binary());
        }
        if self.matches.len() == 0 {
            None
        } else if self.saw_binary {
            let mut marker: Vec<ContentMatch> = Vec::new();
            marker.push(ContentMatch::BinaryFile);
            assert(marker.deep_view() =~= seq![ContentMatchView::BinaryFile]);
            Some(marker)
        } else {
            Some(self.matches)
        }
    }
}

/// The content matches of a search: for each file that has an entry, its
/// path and the entry. The paths are kept in ascending byte-wise order.
#[derive(Debug, PartialEq, Eq)]
pub struct ContentMap {
    paths: KeySet,
    entries: Vec<Vec<ContentMatch>>,
}

impl ContentMap {
    #[verifier::type_invariant]
    closed spec fn paired(&self) -> bool {
        self.paths@.len() == self.entries.len()
    }

    /// The paths that have an entry.
    pub closed spec fn paths(&self) -> Seq<Seq<char>> {
        self.paths@
    }

    /// The entry of each path, at the same position.
    pub closed spec fn entries(&self) -> Seq<Seq<ContentMatchView>> {
        self.entries.deep_view()
    }

    /// Each path has its entry, and the paths ascend strictly.
    pub open spec fn wf(&self) -> bool {
        &&& strictly_ascending(self.paths())
        &&& self.paths().len() == self.entries().len()
    }

    /// The map from path to entry.
    pub open spec fn view(&self) -> Map<Seq<char>, Seq<ContentMatchView>> {
        Map::new(
            |p: Seq<char>| self.paths().contains(p),
            |p: Seq<char>| self.entries()[self.paths().index_of(p)],
        )
    }

    /// A map without entries: no path, no entry.
    pub fn new() -> (map: ContentMap)
        ensures
            map.paths() == Seq::<Seq<char>>::empty(),
            map.entries() == Seq::<Seq<ContentMatchView>>::empty(),
            map.wf(),
            map@ == Map::<Seq<char>, Seq<ContentMatchView>>::empty(),
    {
        let paths = KeySet::new();
        let entries: Vec<Vec<ContentMatch>> = Vec::new();
        assert(entries.deep_view() =~= Seq::<Seq<ContentMatchView>>::empty());
        let map = ContentMap { paths, entries };
        assert(map@ =~= Map::<Seq<char>, Seq<ContentMatchView>>::empty());
        map
    }

    /// The number of files that have an entry.
    pub fn len(&self) -> (n: usize)
        ensures
            n == self.paths().len(),
            self.wf(),
    {
        proof {
            use_type_invariant(self);
        }
        self.paths.len()
    }

    /// The paths that have an entry, in ascending order.
    pub fn keys(&self) -> (keys: &Vec<String>)
        ensures
            keys.deep_view() == self.paths(),
            self.wf(),
    {
        proof {
            use_type_invariant(self);
        }
        self.paths.keys()
    }

    /// The path at position `i`.
    pub fn path(&self, i: usize) -> (path: &String)
        requires
            i < self.paths().len(),
        ensures
            path@ == self.paths()[i as int],
    {
        self.paths.key(i)
    }

    /// The entry at position `i`.
    pub fn entry(&self, i: usize) -> (entry: &Vec<ContentMatch>)
        requires
            i < self.paths().len(),
        ensures
            entry.deep_view() == self.entries()[i as int],
    {
        proof {
            use_type_invariant(self);
        }
        &self.entries[i]
    }

    /// The entry at position `i` belongs to the path at position `i`.
    pub proof fn lemma_entry_at(&self, i: int)
        requires
            self.wf(),
            0 <= i < self.paths().len(),
        ensures
            self@.dom().contains(self.paths()[i]),
            self@[self.paths()[i]] == self.entries()[i],
    {
        let ps = self.paths();
        lemma_strictly_ascending_distinct(ps);
        let j = ps.index_of(ps[i]);
        assert(ps[j] == ps[i]);
    }

    /// The entry of `path`, if it has one.
    pub fn get(&self, path: &str) -> (entry: Option<&Vec<ContentMatch>>)
        ensures
            entry is Some <==> self@.dom().contains(path@),
            entry matches Some(e) ==> e.deep_view() == self@[path@],
    {
        proof {
            use_type_invariant(self);
        }
        let (found, p) = self.paths.find(path);
        if found {
            proof {
                self.lemma_entry_at(p as int);
            }
            Some(&self.entries[p])
        } else {
            None
        }
    }

    /// Gives `path` the entry `entry`, in place of the one it had, if any.
    pub fn insert(&mut self, path: String, entry: Vec<ContentMatch>)
        ensures
            final(self).wf(),
            final(self)@ == old(self)@.insert(path@, entry.deep_view()),
    {
        let ghost old_paths = self.paths();
        let ghost old_entries = self.entries();
        let ghost old_map = self@;
        let ghost new_entry = entry.deep_view();
        let mut taken = ContentMap::new();
        core::mem::swap(self, &mut taken);
        proof {
            use_type_invariant(&taken);
        }
        let ContentMap { mut paths, mut entries } = taken;
        let (is_new, p) = paths.insert(path.as_str());
        if is_new {
            entries.insert(p, entry);
        } else {
            entries[p] = entry;
        }
        proof {
            let new_paths = paths@;
            let new_entries = entries.deep_view();
            lemma_strictly_ascending_distinct(old_paths);
            lemma_strictly_ascending_distinct(new_paths);
            if is_new {
                assert(new_entries =~= old_entries.insert(p as int, new_entry));
            } else {
                assert(new_entries =~= old_entries.update(p as int, new_entry));
            }
        }
        *self = ContentMap { paths, entries };
        proof {
            let new_paths = self.paths();
            assert forall|q: Seq<char>| new_paths.contains(q) implies #[trigger] self@[q] == old_map.insert(
                path@,
                new_entry,
            )[q] by {
                let j = new_paths.index_of(q);
                assert(new_paths[j] == q);
                if q != path@ {
                    let j0 = old_paths.index_of(q);
                    assert(old_paths[j0] == q);
                    if is_new {
                        let j1 = if j0 < p { j0 } else { j0 + 1 };
                        assert(new_paths[j1] == q);
                    }
                }
            }
            assert(self@ =~= old_map.insert(path@, new_entry));
        }
    }
}

/// What the directory walk hands over for one entry.
#[derive(Debug, PartialEq, Eq)]
pub enum WalkEntry {
    /// A directory: walked into, never matched.
    Directory { path: String },
    /// A file to be matched.
    File { path: String },
    /// An entry that could not be read.
    Failed { message: String },
}

/// The paths of the files among `entries` that `matcher` matches, in the
/// order of the walk.
pub open spec fn name_matches(entries: Seq<WalkEntry>, matcher: Matcher) -> Seq<Seq<char>>
    decreases entries.len(),
{
    if entries.len() == 0 {
        Seq::empty()
    } else {
        let rest = name_matches(entries.drop_last(), matcher);
        match entries.last() {
            WalkEntry::File { path } => if matcher.matches(path@) {
                rest.push(path@)
            } else {
                rest
            },
            _ => rest,
        }
    }
}

/// The messages of the entries that could not be read, in the order of the walk.
pub open spec fn walk_failures(entries: Seq<WalkEntry>) -> Seq<Seq<char>>
    decreases entries.len(),
{
    if entries.len() == 0 {
        Seq::empty()
    } else {
        let rest = walk_failures(entries.drop_last());
        match entries.last() {
            WalkEntry::Failed { message } => rest.push(message@),
            _ => rest,
        }
    }
}

/// Tests the path of every file of the walk against `matcher`. Directories
/// are passed over. An entry that could not be read is noted in
/// `diagnostics` and passed over; the collection goes on.
pub fn search_names(entries: &Vec<WalkEntry>, matcher: &Matcher, diagnostics: &mut Vec<String>) -> (names:
    Vec<String>)
    ensures
        names.deep_view() == name_matches(entries@, *matcher),
        final(diagnostics).deep_view() == old(diagnostics).deep_view() + walk_failures(entries@),
{
    let ghost noted = diagnostics.deep_view();
    let mut names: Vec<String> = Vec::new();
    let mut i: usize = 0;
    assert(names.deep_view() =~= Seq::<Seq<char>>::empty());
    assert(diagnostics.deep_view() =~= noted + walk_failures(entries@.take(0)));
    while i < entries.len()
        invariant
            i <= entries.len(),
            names.deep_view() == name_matches(entries@.take(i as int), *matcher),
            diagnostics.deep_view() == noted + walk_failures(entries@.take(i as int)),
        decreases entries.len() - i,
    {
        let ghost before_names = names.deep_view();
        let ghost before_notes = diagnostics.deep_view();
        proof {
            assert(entries@.take(i + 1).drop_last() =~= entries@.take(i as int));
            assert(entries@.take(i + 1).last() == entries@[i as int]);
        }
        match &entries[i] {
            WalkEntry::File { path } => {
                if matcher.is_match(path.as_str()) {
                    names.push(path.clone());
                    assert(names.deep_view() =~= before_names.push(path@));
                }
            },
            WalkEntry::Directory { .. } => {},
            WalkEntry::Failed { message } => {
                diagnostics.push(message.clone());
                assert(diagnostics.deep_view() =~= before_notes.push(message@));
            },
        }
        i += 1;
    }
    assert(entries@.take(entries.len() as int) =~= entries@);
    names
}

/// The paths of the files among `entries` in which `pattern`, compiled
/// under the given case policy, finds a match, in the order of the walk.
pub open spec fn matching_paths(entries: Seq<WalkEntry>, pattern: Seq<char>, case_insensitive: bool) -> Seq<
    Seq<char>,
>
    decreases entries.len(),
{
    if entries.len() == 0 {
        Seq::empty()
    } else {
        let rest = matching_paths(entries.drop_last(), pattern, case_insensitive);
        match entries.last() {
            WalkEntry::File { path } => if regex_matches(pattern, case_insensitive, path@) {
                rest.push(path@)
            } else {
                rest
            },
            _ => rest,
        }
    }
}

/// What a matcher picks out of a walk is settled by the pattern and the
/// case policy it was compiled from.
pub proof fn lemma_name_matches_by_pattern(entries: Seq<WalkEntry>, matcher: Matcher)
    ensures
        name_matches(entries, matcher) == matching_paths(
            entries,
            matcher.pattern(),
            matcher.case_insensitive(),
        ),
    decreases entries.len(),
{
    if entries.len() > 0 {
        lemma_name_matches_by_pattern(entries.drop_last(), matcher);
    }
}

/// The name search of a request: tests the path of every file of the walk
/// against the effective pattern of the request under its resolved case
/// policy. Fails, before any path is tested or entry noted, exactly when
/// the pattern does not compile.
pub fn name_search(cli: &Cli, entries: &Vec<WalkEntry>, diagnostics: &mut Vec<String>) -> (r: Result<
    Vec<String>,
    PatternError,
>)
    requires
        cli.pattern is Some,
    ensures
        r is Ok <==> regex_compiles(
            effective_pattern(cli.raw_pattern(), cli.fixed_strings, cli.word_regexp),
            cli.case_insensitive(),
        ),
        r matches Ok(names) ==> names.deep_view() == matching_paths(
            entries@,
            effective_pattern(cli.raw_pattern(), cli.fixed_strings, cli.word_regexp),
            cli.case_insensitive(),
        ) && final(diagnostics).deep_view() == old(diagnostics).deep_view() + walk_failures(entries@),
        r is Err ==> final(diagnostics).deep_view() == old(diagnostics).deep_view(),
{
    match name_matcher(cli) {
        Ok(matcher) => {
            proof {
                lemma_name_matches_by_pattern(entries@, matcher);
            }
            Ok(search_names(entries, &matcher, diagnostics))
        },
        Err(e) => Err(e),
    }
}

/// The paths of the files among `entries`, in the order of the walk: what
/// the content search is to read.
pub open spec fn file_paths(entries: Seq<WalkEntry>) -> Seq<Seq<char>>
    decreases entries.len(),
{
    if entries.len() == 0 {
        Seq::empty()
    } else {
        let rest = file_paths(entries.drop_last());
        match entries.last() {
            WalkEntry::File { path } => rest.push(path@),
            _ => rest,
        }
    }
}

/// Lists the files whose contents are to be searched. Directories are
/// passed over. An entry that could not be read is noted in `diagnostics`
/// and passed over; the collection goes on.
pub fn files_to_search(entries: &Vec<WalkEntry>, diagnostics: &mut Vec<String>) -> (paths: Vec<String>)
    ensures
        paths.deep_view() == file_paths(entries@),
        final(diagnostics).deep_view() == old(diagnostics).deep_view() + walk_failures(entries@),
{
    let ghost noted = diagnostics.deep_view();
    let mut paths: Vec<String> = Vec::new();
    let mut i: usize = 0;
    assert(paths.deep_view() =~= Seq::<Seq<char>>::empty());
    assert(diagnostics.deep_view() =~= noted + walk_failures(entries@.take(0)));
    while i < entries.len()
        invariant
            i <= entries.len(),
            paths.deep_view() == file_paths(entries@.take(i as int)),
            diagnostics.deep_view() == noted + walk_failures(entries@.take(i as int)),
        decreases entries.len() - i,
    {
        let ghost before_paths = paths.deep_view();
        let ghost before_notes = diagnostics.deep_view();
        proof {
            assert(entries@.take(i + 1).drop_last() =~= entries@.take(i as int));
            assert(entries@.take(i + 1).last() == entries@[i as int]);
        }
        match &entries[i] {
            WalkEntry::File { path } => {
                paths.push(path.clone());
                assert(paths.deep_view() =~= before_paths.push(path@));
            },
            WalkEntry::Directory { .. } => {},
            WalkEntry::Failed { message } => {
                diagnostics.push(message.clone());
                assert(diagnostics.deep_view() =~= before_notes.push(message@));
            },
        }
        i += 1;
    }
    assert(entries@.take(entries.len() as int) =~= entries@);
    paths
}

/// How the search of one file's contents ended.
#[derive(Debug, PartialEq, Eq)]
pub struct SearchedFile {
    /// The file's path.
    pub path: String,
    /// What the search collected, or why the file could not be searched.
    pub outcome: Result<ContentSink, String>,
}

/// The note left for a file that could not be searched.
pub open spec fn search_failure(path: Seq<char>, message: Seq<char>) -> Seq<char> {
    path + ": "@ + message
}

/// The entries of the files of `searched`: each file that was searched and
/// keeps an entry has it under its path; a later file of the same path
/// replaces an earlier one.
pub open spec fn content_results(searched: Seq<SearchedFile>) -> Map<Seq<char>, Seq<ContentMatchView>>
    decreases searched.len(),
{
    if searched.len() == 0 {
        Map::empty()
    } else {
        let rest = content_results(searched.drop_last());
        match searched.last().outcome {
            Ok(sink) => match file_entry(sink.lines(), sink.binary()) {
                Some(entry) => rest.insert(searched.last().path@, entry),
                None => rest,
            },
            Err(_) => rest,
        }
    }
}

/// The notes for the files of `searched` that could not be searched.
pub open spec fn search_failures(searched: Seq<SearchedFile>) -> Seq<Seq<char>>
    decreases searched.len(),
{
    if searched.len() == 0 {
        Seq::empty()
    } else {
        let rest = search_failures(searched.drop_last());
        match searched.last().outcome {
            Ok(_) => rest,
            Err(message) => rest.push(search_failure(searched.last().path@, message@)),
        }
    }
}

/// Every entry of `content` is well formed: lines, or the marker alone.
pub open spec fn entries_ok(content: Map<Seq<char>, Seq<ContentMatchView>>) -> bool {
    forall|p: Seq<char>| content.dom().contains(p) ==> entry_ok(#[trigger] content[p])
}

/// Settles what each searched file contributes. A file that could not be
/// searched is noted in `diagnostics` and passed over; the collection goes on.
pub fn search_content(searched: Vec<SearchedFile>, diagnostics: &mut Vec<String>) -> (results: ContentMap)
    ensures
        results@ == content_results(searched@),
        entries_ok(results@),
        final(diagnostics).deep_view() == old(diagnostics).deep_view() + search_failures(searched@),
{
    let ghost noted = diagnostics.deep_view();
    let ghost all = searched@;
    let mut results = ContentMap::new();
    assert(diagnostics.deep_view() =~= noted + search_failures(all.take(0)));
    for file in it: searched
        invariant
            it.seq() == all,
            results@ == content_results(all.take(it.index() as int)),
            entries_ok(results@),
            diagnostics.deep_view() == noted + search_failures(all.take(it.index() as int)),
    {
        let ghost i = it.index() as int;
        let ghost before_notes = diagnostics.deep_view();
        proof {
            assert(all.take(i + 1).drop_last() =~= all.take(i));
            assert(all.take(i + 1).last() == file);
        }
        let SearchedFile { path, outcome } = file;
        match outcome {
            Ok(sink) => {
                match sink.into_entry() {
                    Some(entry) => {
                        results.insert(path, entry);
                    },
                    None => {},
                }
            },
            Err(message) => {
                let mut note = String::new();
                note.append(path.as_str());
                note.append(": ");
                note.append(message.as_str());
                assert(note@ =~= search_failure(path@, message@));
                diagnostics.push(note);
                assert(diagnostics.deep_view() =~= before_notes.push(search_failure(path@, message@)));
            },
        }
    }
    assert(all.take(all.len() as int) =~= all);
    results
}

} // verus!
