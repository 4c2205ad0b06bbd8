//! Report blocks: how the matches of files and repositories become blocks,
//! and how blocks are laid out as lines.

use vstd::prelude::*;
use vstd::string::StringExecFns;
use crate::git::GitLogMatch;
use crate::git::LogMatchView;
use crate::order::KeySet;
use crate::order::key_bytes;
use crate::order::key_lt;
use crate::order::lemma_encode_concat;
use crate::order::lemma_lex_le_refl;
use crate::order::lemma_strictly_ascending_distinct;
use crate::order::strictly_ascending;
use crate::search::ContentMap;
use crate::search::ContentMatch;
use crate::search::ContentMatchView;
use crate::sorting::BlockView;
use crate::sorting::sort_blocks;
use crate::sorting::sorted_from;
use crate::sorting::with_key;
use crate::text::clone_strings;
use crate::text::decimal;
use crate::text::push_decimal;

verus! {

/// A block of more than one line.
pub open spec fn is_multi(b: BlockView) -> bool {
    b.1.len() > 1
}

/// The printed lines of `blocks` in the order given. An empty line parts two
/// neighbours of which at least one has more than one line; nothing comes
/// before the first block or after the last.
pub open spec fn rendered(blocks: Seq<BlockView>) -> Seq<Seq<char>>
    decreases blocks.len(),
{
    if blocks.len() == 0 {
        Seq::empty()
    } else if blocks.len() == 1 {
        blocks[0].1
    } else {
        let before = blocks.drop_last();
        let gap: Seq<Seq<char>> = if is_multi(before.last()) || is_multi(blocks.last()) {
            seq![Seq::<char>::empty()]
        } else {
            Seq::empty()
        };
        rendered(before) + gap + blocks.last().1
    }
}

/// The number of empty lines before block `i`: one where it or the block
/// before it has more than one line, none before the first block.
pub open spec fn gap_before(blocks: Seq<BlockView>, i: int) -> int {
    if i > 0 && (is_multi(blocks[i - 1]) || is_multi(blocks[i])) {
        1
    } else {
        0
    }
}

/// The position in the layout at which the lines of block `i` begin.
pub open spec fn block_start(blocks: Seq<BlockView>, i: int) -> int {
    rendered(blocks.take(i)).len() + gap_before(blocks, i)
}

/// The layout of the first `i + 1` blocks is the layout of the first `i`,
/// the gap, and the lines of block `i`.
pub proof fn lemma_rendered_step(blocks: Seq<BlockView>, i: int)
    requires
        0 <= i < blocks.len(),
    ensures
        rendered(blocks.take(i + 1)).len() == block_start(blocks, i) + blocks[i].1.len(),
        rendered(blocks.take(i + 1)).subrange(0, rendered(blocks.take(i)).len() as int) == rendered(
            blocks.take(i),
        ),
        rendered(blocks.take(i + 1)).subrange(
            block_start(blocks, i),
            block_start(blocks, i) + blocks[i].1.len(),
        ) == blocks[i].1,
{
    let t = blocks.take(i + 1);
    let before = rendered(blocks.take(i));
    assert(t.last() == blocks[i]);
    if i == 0 {
        assert(blocks.take(0) =~= Seq::<BlockView>::empty());
        assert(rendered(t) == blocks[0].1);
        assert(rendered(t).subrange(0, 0) =~= before);
        assert(rendered(t).subrange(0, blocks[0].1.len() as int) =~= blocks[0].1);
    } else {
        assert(t.drop_last() =~= blocks.take(i));
        assert(t.drop_last().last() == blocks[i - 1]);
        let gap: Seq<Seq<char>> = if is_multi(blocks[i - 1]) || is_multi(blocks[i]) {
            seq![Seq::<char>::empty()]
        } else {
            Seq::empty()
        };
        assert(rendered(t) == before + gap + blocks[i].1);
        assert(rendered(t).subrange(0, before.len() as int) =~= before);
        assert(rendered(t).subrange(
            block_start(blocks, i),
            block_start(blocks, i) + blocks[i].1.len(),
        ) =~= blocks[i].1);
    }
}

/// The layout of the first `n` blocks begins the layout of the first `m`,
/// for `n` up to `m`.
pub proof fn lemma_rendered_prefix(blocks: Seq<BlockView>, n: int, m: int)
    requires
        0 <= n <= m <= blocks.len(),
    ensures
        rendered(blocks.take(n)).len() <= rendered(blocks.take(m)).len(),
        rendered(blocks.take(m)).subrange(0, rendered(blocks.take(n)).len() as int) == rendered(
            blocks.take(n),
        ),
    decreases m - n,
{
    if n == m {
        assert(rendered(blocks.take(m)).subrange(0, rendered(blocks.take(n)).len() as int) =~= rendered(
            blocks.take(n),
        ));
    } else {
        lemma_rendered_prefix(blocks, n, m - 1);
        lemma_rendered_step(blocks, m - 1);
        let short = rendered(blocks.take(n));
        let mid = rendered(blocks.take(m - 1));
        let long = rendered(blocks.take(m));
        assert(long.subrange(0, short.len() as int) =~= long.subrange(0, mid.len() as int).subrange(
            0,
            short.len() as int,
        ));
    }
}

/// Every block stands in the layout as it is: its lines begin at its start
/// and run on unbroken. Blocks stand in the layout in their order: a block
/// ends before a later one begins.
pub proof fn lemma_blocks_in_layout(blocks: Seq<BlockView>, i: int, j: int)
    requires
        0 <= i <= j < blocks.len(),
    ensures
        0 <= block_start(blocks, i),
        block_start(blocks, i) + blocks[i].1.len() <= rendered(blocks).len(),
        rendered(blocks).subrange(block_start(blocks, i), block_start(blocks, i) + blocks[i].1.len())
            == blocks[i].1,
        i < j ==> block_start(blocks, i) + blocks[i].1.len() <= block_start(blocks, j),
{
    let all = rendered(blocks);
    let upto = rendered(blocks.take(i + 1));
    assert(blocks.take(blocks.len() as int) =~= blocks);
    lemma_rendered_step(blocks, i);
    lemma_rendered_prefix(blocks, i + 1, blocks.len() as int);
    assert(all.subrange(block_start(blocks, i), block_start(blocks, i) + blocks[i].1.len())
        =~= all.subrange(0, upto.len() as int).subrange(
        block_start(blocks, i),
        block_start(blocks, i) + blocks[i].1.len(),
    ));
    if i < j {
        lemma_rendered_prefix(blocks, i + 1, j);
    }
}

/// Lays `blocks` out as lines, in the order given.
pub fn render_blocks(blocks: &Vec<(String, Vec<String>)>) -> (lines: Vec<String>)
    ensures
        lines.deep_view() == rendered(blocks.deep_view()),
{
    let mut lines: Vec<String> = Vec::new();
    let mut prev_multi = false;
    let mut i: usize = 0;
    while i < blocks.len()
        invariant
            i <= blocks.len(),
            lines.deep_view() == rendered(blocks.deep_view().take(i as int)),
            i > 0 ==> prev_multi == is_multi(blocks.deep_view()[i - 1]),
        decreases blocks.len() - i,
    {
        let ghost done = blocks.deep_view().take(i as int);
        let ghost next = blocks.deep_view().take(i + 1);
        let ghost before = lines.deep_view();
        let block = &blocks[i];
        let multi = block.1.len() > 1;
        assert(block.deep_view() == blocks.deep_view()[i as int]);
        assert(multi == is_multi(blocks.deep_view()[i as int]));
        if i > 0 && (multi || prev_multi) {
            lines.push(String::new());
        }
        let ghost gapped = lines.deep_view();
        let mut copy = clone_strings(&block.1);
        lines.append(&mut copy);
        proof {
            assert(next.drop_last() =~= done);
            assert(next.last() == blocks.deep_view()[i as int]);
            let gap: Seq<Seq<char>> = if i > 0 && (multi || prev_multi) {
                seq![Seq::<char>::empty()]
            } else {
                Seq::empty()
            };
            assert(gapped =~= before + gap);
            assert(lines.deep_view() =~= gapped + block.1.deep_view());
            if i > 0 {
                assert(done.last() == blocks.deep_view()[i - 1]);
            } else {
                assert(before =~= Seq::<Seq<char>>::empty());
                assert(lines.deep_view() =~= next[0].1);
            }
        }
        prev_multi = multi;
        i += 1;
    }
    assert(blocks.deep_view().take(blocks.len() as int) =~= blocks.deep_view());
    lines
}

/// Sorts `blocks` by key and lays them out as the lines to print.
pub fn print_blocks(blocks: &mut Vec<(String, Vec<String>)>) -> (lines: Vec<String>)
    ensures
        sorted_from(old(blocks).deep_view(), final(blocks).deep_view()),
        lines.deep_view() == rendered(final(blocks).deep_view()),
{
    sort_blocks(blocks);
    render_blocks(blocks)
}

/// The first line of a repository's block.
pub open spec fn log_header(repo: Seq<char>) -> Seq<char> {
    repo + " (git log):"@
}

/// The line that shows one commit: hash, date where there is one, subject.
pub open spec fn log_line(m: LogMatchView) -> Seq<char> {
    match m.date {
        Some(date) => "  "@ + m.hash + " "@ + date + " "@ + m.message,
        None => "  "@ + m.hash + " "@ + m.message,
    }
}

/// The sort key of a repository's block: the repository path, a slash and
/// the DEL character, which sorts after the printable ASCII that file names
/// inside the repository usually start with.
pub open spec fn log_key(repo: Seq<char>) -> Seq<char> {
    repo + seq!['/', '\u{7f}']
}

/// `repo` with the slash that begins every path inside it.
pub open spec fn inside_prefix(repo: Seq<char>) -> Seq<char> {
    repo + seq!['/']
}

/// A repository's block sorts after the files inside the repository: after
/// every path that continues `repo/` with a character below DEL, which is to
/// say with any ASCII character but DEL itself.
pub proof fn lemma_log_block_follows_files(repo: Seq<char>, first: char, tail: Seq<char>)
    requires
        first < '\u{7f}',
    ensures
        key_lt(inside_prefix(repo) + seq![first] + tail, log_key(repo)),
{
    let prefix = key_bytes(inside_prefix(repo));
    let head = seq![first];
    let del = seq!['\u{7f}'];
    assert(inside_prefix(repo) + head + tail =~= inside_prefix(repo) + (head + tail));
    assert(log_key(repo) =~= inside_prefix(repo) + del);
    lemma_encode_concat(inside_prefix(repo), head + tail);
    lemma_encode_concat(head, tail);
    lemma_encode_concat(inside_prefix(repo), del);
    assert(vstd::utf8::is_ascii_chars(head));
    assert(vstd::utf8::is_ascii_chars(del));
    vstd::utf8::is_ascii_chars_encode_utf8(head);
    vstd::utf8::is_ascii_chars_encode_utf8(del);
    let path = key_bytes(inside_prefix(repo) + head + tail);
    let key = key_bytes(log_key(repo));
    let n = prefix.len() as int;
    assert(key =~= prefix + vstd::utf8::encode_utf8(del));
    assert(path =~= prefix + (vstd::utf8::encode_utf8(head) + vstd::utf8::encode_utf8(tail)));
    assert(key[n] == vstd::utf8::encode_utf8(del)[0]);
    assert(path[n] == vstd::utf8::encode_utf8(head)[0]);
    assert(head[0] == first);
    assert(del[0] == '\u{7f}');
    assert(key[n] == 0x7f);
    assert(path[n] < 0x7f);
    assert(crate::order::agree_upto(key, path, n));
    crate::order::lemma_skip_common_prefix(key, path, n);
}

/// A repository's block sorts before whatever sorts after `repo/` without
/// lying inside it, such as the files of a sibling directory whose name
/// sorts later.
pub proof fn lemma_log_block_precedes_later(repo: Seq<char>, other: Seq<char>)
    requires
        key_lt(inside_prefix(repo), other),
        !key_bytes(inside_prefix(repo)).is_prefix_of(key_bytes(other)),
    ensures
        key_lt(log_key(repo), other),
{
    let prefix = key_bytes(inside_prefix(repo));
    let del = seq!['\u{7f}'];
    assert(log_key(repo) =~= inside_prefix(repo) + del);
    lemma_encode_concat(inside_prefix(repo), del);
    let key = key_bytes(log_key(repo));
    assert(key =~= prefix + vstd::utf8::encode_utf8(del));
    assert(forall|j: int| 0 <= j < prefix.len() ==> key[j] == prefix[j]);
    lemma_diverging_stays_later(prefix, key, key_bytes(other), 0);
}

/// Where `other` sorts after `prefix` and parts from it before `prefix`
/// ends, it sorts after every continuation of `prefix` too.
proof fn lemma_diverging_stays_later(prefix: Seq<u8>, longer: Seq<u8>, other: Seq<u8>, i: int)
    requires
        0 <= i <= prefix.len(),
        i <= other.len(),
        prefix.len() <= longer.len(),
        forall|j: int| 0 <= j < prefix.len() ==> longer[j] == prefix[j],
        forall|j: int| 0 <= j < i ==> other[j] == prefix[j],
        !crate::order::lex_le_from(other, prefix, i),
        !prefix.is_prefix_of(other),
    ensures
        !crate::order::lex_le_from(other, longer, i),
    decreases prefix.len() - i,
{
    if i == prefix.len() {
        assert(prefix =~= other.subrange(0, prefix.len() as int));
    } else if i < other.len() && other[i] == prefix[i] {
        lemma_diverging_stays_later(prefix, longer, other, i + 1);
    }
}

/// The commit lines of the matches that belong to `repo`, in the order given.
pub open spec fn log_lines(matches: Seq<LogMatchView>, repo: Seq<char>) -> Seq<Seq<char>>
    decreases matches.len(),
{
    if matches.len() == 0 {
        Seq::empty()
    } else {
        let rest = log_lines(matches.drop_last(), repo);
        if matches.last().repo == repo {
            rest.push(log_line(matches.last()))
        } else {
            rest
        }
    }
}

/// The block that reports the matches of `repo`.
pub open spec fn log_block(matches: Seq<LogMatchView>, repo: Seq<char>) -> BlockView {
    (log_key(repo), seq![log_header(repo)] + log_lines(matches, repo))
}

/// `repos` lists, in ascending byte-wise order and once each, the
/// repositories that `matches` mention.
pub open spec fn repos_of(matches: Seq<LogMatchView>, repos: Seq<Seq<char>>) -> bool {
    &&& strictly_ascending(repos)
    &&& forall|r: Seq<char>| #[trigger]
        repos.contains(r) <==> exists|k: int| 0 <= k < matches.len() && (#[trigger] matches[k]).repo == r
}

/// `blocks` holds one block for each repository that `matches` mention, in
/// ascending byte-wise order of the repository paths.
pub open spec fn is_log_blocks(matches: Seq<LogMatchView>, blocks: Seq<BlockView>) -> bool {
    exists|repos: Seq<Seq<char>>|
        {
            &&& #[trigger] repos_of(matches, repos)
            &&& blocks.len() == repos.len()
            &&& forall|i: int| 0 <= i < repos.len() ==> #[trigger] blocks[i] == log_block(matches, repos[i])
        }
}

/// No match of `repo`, no lines.
pub proof fn lemma_log_lines_absent(matches: Seq<LogMatchView>, repo: Seq<char>)
    requires
        forall|k: int| 0 <= k < matches.len() ==> (#[trigger] matches[k]).repo != repo,
    ensures
        log_lines(matches, repo) == Seq::<Seq<char>>::empty(),
    decreases matches.len(),
{
    if matches.len() > 0 {
        lemma_log_lines_absent(matches.drop_last(), repo);
    }
}

fn log_header_line(repo: &str) -> (s: String)
    ensures
        s@ == log_header(repo@),
{
    let mut s = String::new();
    s.append(repo);
    s.append(" (git log):");
    assert(s@ =~= log_header(repo@));
    s
}

fn log_sort_key(repo: &str) -> (s: String)
    ensures
        s@ == log_key(repo@),
{
    let mut s = String::new();
    s.append(repo);
    s.push('/');
    s.push('\x7f');
    assert(s@ =~= log_key(repo@));
    s
}

fn log_match_line(m: &GitLogMatch) -> (s: String)
    ensures
        s@ == log_line(m@),
{
    let mut s = String::new();
    s.append("  ");
    s.append(m.hash.as_str());
    s.append(" ");
    match &m.date {
        Some(date) => {
            s.append(date.as_str());
            s.append(" ");
        },
        None => {},
    }
    s.append(m.message.as_str());
    assert(s@ =~= log_line(m@));
    s
}

/// Groups commit matches by repository. Each repository becomes one block: a
/// header line, then one line per commit in the order given. The blocks come
/// in ascending byte-wise order of the repository paths.
pub fn git_log_blocks(log_matches: &[GitLogMatch]) -> (blocks: Vec<(String, Vec<String>)>)
    ensures
        is_log_blocks(log_matches.deep_view(), blocks.deep_view()),
{
    let ghost ms = log_matches.deep_view();
    let mut repos = KeySet::new();
    let mut blocks: Vec<(String, Vec<String>)> = Vec::new();
    let mut k: usize = 0;
    while k < log_matches.len()
        invariant
            k <= log_matches.len(),
            ms == log_matches.deep_view(),
            strictly_ascending(repos@),
            repos_of(ms.take(k as int), repos@),
            blocks.len() == repos@.len(),
            forall|i: int|
                0 <= i < repos@.len() ==> (#[trigger] blocks[i]).deep_view() == log_block(
                    ms.take(k as int),
                    repos@[i],
                ),
        decreases log_matches.len() - k,
    {
        let m = &log_matches[k];
        let ghost mv = ms[k as int];
        let ghost done = ms.take(k as int);
        let ghost next = ms.take(k + 1);
        let ghost old_repos = repos@;
        let ghost old_blocks = blocks@;
        proof {
            assert(m@ == mv);
            assert(next.drop_last() =~= done);
            assert(next.last() == mv);
            lemma_strictly_ascending_distinct(old_repos);
        }
        let (is_new, p) = repos.insert(m.repo.as_str());
        if is_new {
            let mut lines: Vec<String> = Vec::new();
            lines.push(log_header_line(m.repo.as_str()));
            blocks.insert(p, (log_sort_key(m.repo.as_str()), lines));
            proof {
                assert forall|j: int| 0 <= j < done.len() implies (#[trigger] done[j]).repo != mv.repo by {
                    if done[j].repo == mv.repo {
                        assert(old_repos.contains(mv.repo));
                    }
                }
                lemma_log_lines_absent(done, mv.repo);
                assert(blocks[p as int].deep_view().1 =~= seq![log_header(mv.repo)] + log_lines(
                    done,
                    mv.repo,
                ));
            }
        }
        let ghost mid_blocks = blocks@;
        proof {
            lemma_strictly_ascending_distinct(repos@);
            assert forall|i: int| 0 <= i < repos@.len() implies (#[trigger] mid_blocks[i]).deep_view()
                == log_block(done, repos@[i]) by {
                if is_new && i != p {
                    let i0 = if i < p { i } else { i - 1 };
                    assert(mid_blocks[i] == old_blocks[i0]);
                    assert(repos@[i] == old_repos[i0]);
                }
            }
        }
        let line = log_match_line(m);
        blocks[p].1.push(line);
        proof {
            assert(blocks[p as int].deep_view().0 == mid_blocks[p as int].deep_view().0);
            assert(blocks[p as int].deep_view().1 =~= mid_blocks[p as int].deep_view().1.push(
                log_line(mv),
            ));
            assert forall|i: int| 0 <= i < repos@.len() implies (#[trigger] blocks[i]).deep_view()
                == log_block(next, repos@[i]) by {
                if i == p {
                    assert(blocks[i].deep_view().1 =~= seq![log_header(mv.repo)] + log_lines(
                        next,
                        mv.repo,
                    ));
                } else {
                    assert(blocks[i] == mid_blocks[i]);
                    assert(repos@[i] != repos@[p as int]);
                }
            }
            assert forall|r: Seq<char>| #[trigger]
                repos@.contains(r) <==> exists|j: int|
                    0 <= j < next.len() && (#[trigger] next[j]).repo == r by {
                if old_repos.contains(r) {
                    let j = choose|j: int| 0 <= j < done.len() && (#[trigger] done[j]).repo == r;
                    assert(next[j].repo == r);
                }
                if r == mv.repo {
                    assert(next[k as int].repo == r);
                }
                if exists|j: int| 0 <= j < next.len() && (#[trigger] next[j]).repo == r {
                    let j = choose|j: int| 0 <= j < next.len() && (#[trigger] next[j]).repo == r;
                    if j < k {
                        assert(done[j].repo == r);
                    }
                }
            }
        }
        k += 1;
    }
    proof {
        assert(ms.take(k as int) =~= ms);
        let bs = blocks.deep_view();
        assert(forall|i: int| 0 <= i < bs.len() ==> #[trigger] bs[i] == blocks[i].deep_view());
        assert(repos_of(ms, repos@));
    }
    blocks
}

/// The line that shows one content match.
pub open spec fn content_line(m: ContentMatchView) -> Seq<char> {
    match m {
        ContentMatchView::Line { line_number, line } => "  "@ + decimal(line_number as nat) + ":"@ + line,
        ContentMatchView::BinaryFile => "  (binary file matches)"@,
    }
}

/// The lines that show a file's entry, one per content match.
pub open spec fn content_lines(entry: Seq<ContentMatchView>) -> Seq<Seq<char>> {
    Seq::new(entry.len(), |i: int| content_line(entry[i]))
}

/// The line that marks a file whose name matched as well.
pub open spec fn name_mark() -> Seq<char> {
    "  (name match)"@
}

/// The lines of a file's block. A file without an entry is a name match and
/// shows as its path alone. A file with an entry shows its path, the name
/// mark where its name matched too, and the lines of the entry.
pub open spec fn file_lines(path: Seq<char>, named: bool, entry: Option<Seq<ContentMatchView>>) -> Seq<
    Seq<char>,
> {
    match entry {
        None => seq![path],
        Some(e) => {
            let mark: Seq<Seq<char>> = if named {
                seq![name_mark()]
            } else {
                Seq::empty()
            };
            seq![path] + mark + content_lines(e)
        },
    }
}

/// The entry of `path` in `content`, if it has one.
pub open spec fn entry_of(content: Map<Seq<char>, Seq<ContentMatchView>>, path: Seq<char>) -> Option<
    Seq<ContentMatchView>,
> {
    if content.dom().contains(path) {
        Some(content[path])
    } else {
        None
    }
}

/// Some block of `blocks` has the key `key`.
pub open spec fn has_key(blocks: Seq<BlockView>, key: Seq<char>) -> bool {
    exists|i: int| 0 <= i < blocks.len() && (#[trigger] blocks[i]).0 == key
}

/// No key occurs twice in `blocks`.
pub open spec fn keys_distinct(blocks: Seq<BlockView>) -> bool {
    forall|i: int, j: int| 0 <= i < j < blocks.len() ==> (#[trigger] blocks[i]).0 != (#[trigger] blocks[j]).0
}

/// `blocks` holds one block for each path that is a name match or has a
/// content entry, keyed by the path.
pub open spec fn is_file_blocks(
    names: Set<Seq<char>>,
    content: Map<Seq<char>, Seq<ContentMatchView>>,
    blocks: Seq<BlockView>,
) -> bool {
    &&& keys_distinct(blocks)
    &&& forall|p: Seq<char>| #[trigger] has_key(blocks, p) <==> names.contains(p) || content.dom().contains(p)
    &&& forall|i: int|
        0 <= i < blocks.len() ==> (#[trigger] blocks[i]).1 == file_lines(
            blocks[i].0,
            names.contains(blocks[i].0),
            entry_of(content, blocks[i].0),
        )
}

/// The blocks before position `n` are those of the files with a content
/// entry, the others follow, and both groups ascend by key.
pub open spec fn splits_at(content: Map<Seq<char>, Seq<ContentMatchView>>, blocks: Seq<BlockView>, n: int) -> bool {
    &&& 0 <= n <= blocks.len()
    &&& forall|k: int| 0 <= k < blocks.len() ==> (content.dom().contains((#[trigger] blocks[k]).0) <==> k < n)
    &&& forall|x: int, y: int|
        0 <= x < y < blocks.len() && (y < n || n <= x) ==> key_lt(
            (#[trigger] blocks[x]).0,
            (#[trigger] blocks[y]).0,
        )
}

/// The files with a content entry come first, then the other name matches,
/// each group in ascending byte-wise order of the paths.
pub open spec fn in_file_order(content: Map<Seq<char>, Seq<ContentMatchView>>, blocks: Seq<BlockView>) -> bool {
    exists|n: int| #[trigger] splits_at(content, blocks, n)
}

/// Among blocks with distinct keys, a key picks out its one block or nothing.
pub proof fn lemma_distinct_group(blocks: Seq<BlockView>, key: Seq<char>)
    requires
        keys_distinct(blocks),
    ensures
        !has_key(blocks, key) ==> with_key(blocks, key) == Seq::<BlockView>::empty(),
        has_key(blocks, key) ==> exists|i: int|
            0 <= i < blocks.len() && (#[trigger] blocks[i]).0 == key && with_key(blocks, key) == seq![
                blocks[i],
            ],
    decreases blocks.len(),
{
    if blocks.len() > 0 {
        let front = blocks.drop_last();
        let last = blocks.last();
        assert(forall|i: int| 0 <= i < front.len() ==> front[i] == blocks[i]);
        lemma_distinct_group(front, key);
        if last.0 == key {
            assert(!has_key(front, key)) by {
                if has_key(front, key) {
                    let i = choose|i: int| 0 <= i < front.len() && (#[trigger] front[i]).0 == key;
                    assert(blocks[i].0 == blocks[blocks.len() - 1].0);
                }
            }
            assert(with_key(blocks, key) =~= seq![blocks[blocks.len() - 1]]);
        } else if has_key(blocks, key) {
            let i = choose|i: int| 0 <= i < blocks.len() && (#[trigger] blocks[i]).0 == key;
            assert(front[i].0 == key);
            let j = choose|j: int|
                0 <= j < front.len() && (#[trigger] front[j]).0 == key && with_key(front, key) == seq![
                    front[j],
                ];
            assert(blocks[j].0 == key && with_key(blocks, key) == seq![blocks[j]]);
        } else {
            assert(!has_key(front, key)) by {
                if has_key(front, key) {
                    let i = choose|i: int| 0 <= i < front.len() && (#[trigger] front[i]).0 == key;
                    assert(blocks[i].0 == key);
                }
            }
        }
    }
}

/// Whatever order the blocks of the files come in, a key picks out the same:
/// the one block of that path, or nothing.
pub proof fn lemma_file_blocks_group(
    names: Set<Seq<char>>,
    content: Map<Seq<char>, Seq<ContentMatchView>>,
    blocks: Seq<BlockView>,
    key: Seq<char>,
)
    requires
        is_file_blocks(names, content, blocks),
    ensures
        with_key(blocks, key) == if names.contains(key) || content.dom().contains(key) {
            seq![(key, file_lines(key, names.contains(key), entry_of(content, key)))]
        } else {
            Seq::<BlockView>::empty()
        },
{
    lemma_distinct_group(blocks, key);
    assert(has_key(blocks, key) <==> names.contains(key) || content.dom().contains(key));
}

/// The block of the file `path`.
pub open spec fn file_block(
    names: Set<Seq<char>>,
    content: Map<Seq<char>, Seq<ContentMatchView>>,
    path: Seq<char>,
) -> BlockView {
    (path, file_lines(path, names.contains(path), entry_of(content, path)))
}

/// Some match of `matches` belongs to `repo`.
pub open spec fn mentions(matches: Seq<LogMatchView>, repo: Seq<char>) -> bool {
    exists|k: int| 0 <= k < matches.len() && (#[trigger] matches[k]).repo == repo
}

/// The block of a path that is a name match or has a content entry is
/// among the blocks of the files.
pub proof fn lemma_file_block_present(
    names: Set<Seq<char>>,
    content: Map<Seq<char>, Seq<ContentMatchView>>,
    blocks: Seq<BlockView>,
    path: Seq<char>,
)
    requires
        is_file_blocks(names, content, blocks),
        names.contains(path) || content.dom().contains(path),
    ensures
        blocks.contains(file_block(names, content, path)),
{
    assert(has_key(blocks, path));
    let i = choose|i: int| 0 <= i < blocks.len() && (#[trigger] blocks[i]).0 == path;
    assert(blocks[i] == file_block(names, content, path));
}

/// The block of a repository that the matches mention is among the blocks
/// of the repositories.
pub proof fn lemma_log_block_present(matches: Seq<LogMatchView>, blocks: Seq<BlockView>, repo: Seq<char>)
    requires
        is_log_blocks(matches, blocks),
        mentions(matches, repo),
    ensures
        blocks.contains(log_block(matches, repo)),
{
    let repos = choose|repos: Seq<Seq<char>>|
        {
            &&& #[trigger] repos_of(matches, repos)
            &&& blocks.len() == repos.len()
            &&& forall|i: int| 0 <= i < repos.len() ==> #[trigger] blocks[i] == log_block(matches, repos[i])
        };
    assert(repos.contains(repo));
    let i = choose|i: int| 0 <= i < repos.len() && repos[i] == repo;
    assert(blocks[i] == log_block(matches, repos[i]));
}

/// The blocks of the repositories are settled by the commit matches.
pub proof fn lemma_log_blocks_unique(matches: Seq<LogMatchView>, a: Seq<BlockView>, b: Seq<BlockView>)
    requires
        is_log_blocks(matches, a),
        is_log_blocks(matches, b),
    ensures
        a == b,
{
    let ra = choose|repos: Seq<Seq<char>>|
        {
            &&& #[trigger] repos_of(matches, repos)
            &&& a.len() == repos.len()
            &&& forall|i: int| 0 <= i < repos.len() ==> #[trigger] a[i] == log_block(matches, repos[i])
        };
    let rb = choose|repos: Seq<Seq<char>>|
        {
            &&& #[trigger] repos_of(matches, repos)
            &&& b.len() == repos.len()
            &&& forall|i: int| 0 <= i < repos.len() ==> #[trigger] b[i] == log_block(matches, repos[i])
        };
    assert forall|k: Seq<char>| ra.contains(k) <==> rb.contains(k) by {
        assert(ra.contains(k) <==> exists|j: int| 0 <= j < matches.len() && (#[trigger] matches[j]).repo == k);
        assert(rb.contains(k) <==> exists|j: int| 0 <= j < matches.len() && (#[trigger] matches[j]).repo == k);
    }
    crate::order::lemma_ascending_unique(ra, rb);
    assert(a =~= b);
}

fn content_match_line(m: &ContentMatch) -> (s: String)
    ensures
        s@ == content_line(m@),
{
    match m {
        ContentMatch::Line { line_number, line } => {
            let mut s = String::new();
            s.append("  ");
            push_decimal(&mut s, *line_number);
            s.append(":");
            s.append(line.as_str());
            assert(s@ =~= content_line(m@));
            s
        },
        ContentMatch::BinaryFile => "  (binary file matches)".to_owned(),
    }
}

/// The lines of the block of a file that has a content entry.
fn entry_lines(path: &str, named: bool, entry: &Vec<ContentMatch>) -> (lines: Vec<String>)
    ensures
        lines.deep_view() == file_lines(path@, named, Some(entry.deep_view())),
{
    let mut lines: Vec<String> = Vec::new();
    lines.push(path.to_owned());
    if named {
        lines.push("  (name match)".to_owned());
    }
    let ghost head = lines.deep_view();
    let ghost mark: Seq<Seq<char>> = if named {
        seq![name_mark()]
    } else {
        Seq::empty()
    };
    assert(head =~= seq![path@] + mark);
    let mut k: usize = 0;
    while k < entry.len()
        invariant
            k <= entry.len(),
            lines.deep_view() == head + content_lines(entry.deep_view()).take(k as int),
        decreases entry.len() - k,
    {
        let ghost before = lines.deep_view();
        lines.push(content_match_line(&entry[k]));
        proof {
            assert(entry.deep_view()[k as int] == entry[k as int]@);
            assert(lines.deep_view() =~= before.push(content_line(entry[k as int]@)));
            assert(content_lines(entry.deep_view()).take(k + 1) =~= content_lines(entry.deep_view()).take(
                k as int,
            ).push(content_line(entry[k as int]@)));
        }
        k += 1;
    }
    assert(content_lines(entry.deep_view()).take(entry.len() as int) =~= content_lines(entry.deep_view()));
    lines
}

/// Builds the blocks of the files: one for each path that is among `names`
/// or has an entry in `content`. The files with an entry come first, then
/// the others, each group in ascending byte-wise order of the paths.
pub fn file_blocks(names: &Vec<String>, content: &ContentMap) -> (blocks: Vec<(String, Vec<String>)>)
    ensures
        is_file_blocks(names.deep_view().to_set(), content@, blocks.deep_view()),
        in_file_order(content@, blocks.deep_view()),
{
    let ghost ns = names.deep_view();
    let ghost paths = content.paths();
    let files = content.len();
    let mut named = KeySet::new();
    let mut a: usize = 0;
    while a < names.len()
        invariant
            a <= names.len(),
            ns == names.deep_view(),
            strictly_ascending(named@),
            forall|p: Seq<char>| named@.contains(p) <==> ns.take(a as int).contains(p),
        decreases names.len() - a,
    {
        let ghost before = named@;
        named.insert(names[a].as_str());
        proof {
            assert(ns[a as int] == names[a as int]@);
            assert(ns.take(a + 1) =~= ns.take(a as int).push(ns[a as int]));
            assert forall|p: Seq<char>| named@.contains(p) <==> ns.take(a + 1).contains(p) by {
                let shorter = ns.take(a as int);
                let longer = ns.take(a + 1);
                if shorter.contains(p) {
                    let w = choose|w: int| 0 <= w < shorter.len() && shorter[w] == p;
                    assert(longer[w] == p);
                }
                if p == ns[a as int] {
                    assert(longer[a as int] == p);
                }
                if longer.contains(p) {
                    let w = choose|w: int| 0 <= w < longer.len() && longer[w] == p;
                    if w < a {
                        assert(shorter[w] == p);
                    }
                }
            }
        }
        a += 1;
    }
    let ghost name_paths = ns.to_set();
    proof {
        assert(ns.take(names.len() as int) =~= ns);
        lemma_strictly_ascending_distinct(paths);
        lemma_strictly_ascending_distinct(named@);
        assert(forall|p: Seq<char>| paths.contains(p) <==> content@.dom().contains(p));
    }
    let mut blocks: Vec<(String, Vec<String>)> = Vec::new();
    let mut i: usize = 0;
    while i < files
        invariant
            i <= files,
            files == content.paths().len(),
            content.wf(),
            paths == content.paths(),
            strictly_ascending(named@),
            forall|p: Seq<char>| named@.contains(p) <==> name_paths.contains(p),
            blocks.len() == i,
            forall|k: int|
                0 <= k < i ==> (#[trigger] blocks[k]).deep_view() == (
                    paths[k],
                    file_lines(paths[k], name_paths.contains(paths[k]), entry_of(content@, paths[k])),
                ),
        decreases content.paths().len() - i,
    {
        let path = content.path(i);
        proof {
            content.lemma_entry_at(i as int);
        }
        let (is_named, _) = named.find(path.as_str());
        let lines = entry_lines(path.as_str(), is_named, content.entry(i));
        blocks.push((path.clone(), lines));
        i += 1;
    }
    let n = blocks.len();
    let ghost with_entry = blocks@;
    let mut j: usize = 0;
    while j < named.len()
        invariant
            j <= named@.len(),
            content.wf(),
            strictly_ascending(named@),
            paths == content.paths(),
            n == paths.len(),
            n <= blocks.len(),
            forall|k: int| 0 <= k < n ==> #[trigger] blocks[k] == with_entry[k],
            forall|k: int|
                n <= k < blocks.len() ==> (#[trigger] blocks[k]).deep_view().1 == seq![
                    blocks[k].deep_view().0,
                ] && !paths.contains(blocks[k].deep_view().0) && exists|w: int|
                    0 <= w < j && named@[w] == blocks[k].deep_view().0,
            forall|x: int, y: int|
                n <= x < y < blocks.len() ==> key_lt(
                    (#[trigger] blocks[x]).deep_view().0,
                    (#[trigger] blocks[y]).deep_view().0,
                ),
            forall|w: int|
                0 <= w < j && !paths.contains(#[trigger] named@[w]) ==> exists|k: int|
                    n <= k < blocks.len() && (#[trigger] blocks[k]).deep_view().0 == named@[w],
        decreases named@.len() - j,
    {
        let name = named.key(j);
        let ghost old_blocks = blocks@;
        match content.get(name.as_str()) {
            Some(_) => {},
            None => {
                let mut lines: Vec<String> = Vec::new();
                lines.push(name.clone());
                assert(lines.deep_view() =~= seq![name@]);
                blocks.push((name.clone(), lines));
                proof {
                    let last = blocks.len() - 1;
                    assert(forall|k: int| 0 <= k < last ==> blocks[k] == old_blocks[k]);
                    assert(blocks[last].deep_view().0 == name@);
                    assert forall|x: int, y: int| n <= x < y < blocks.len() implies key_lt(
                        (#[trigger] blocks[x]).deep_view().0,
                        (#[trigger] blocks[y]).deep_view().0,
                    ) by {
                        if y == last {
                            let w = choose|w: int| 0 <= w < j && named@[w] == blocks[x].deep_view().0;
                            assert(key_lt(named@[w], named@[j as int]));
                        }
                    }
                    assert forall|w: int| 0 <= w < j + 1 && !paths.contains(
                        #[trigger] named@[w],
                    ) implies exists|k: int|
                        n <= k < blocks.len() && (#[trigger] blocks[k]).deep_view().0 == named@[w] by {
                        if w == j {
                            assert(blocks[last].deep_view().0 == named@[w]);
                        } else {
                            let k = choose|k: int|
                                n <= k < old_blocks.len() && (#[trigger] old_blocks[k]).deep_view().0
                                    == named@[w];
                            assert(blocks[k].deep_view().0 == named@[w]);
                        }
                    }
                }
            },
        }
        j += 1;
    }
    proof {
        let bs = blocks.deep_view();
        assert(forall|k: int| 0 <= k < bs.len() ==> bs[k] == blocks[k].deep_view());
        assert forall|x: int, y: int| 0 <= x < y < bs.len() implies (#[trigger] bs[x]).0 != (
        #[trigger] bs[y]).0 by {
            lemma_lex_le_refl(key_bytes(bs[x].0));
            if y < n {
                assert(bs[x].0 == paths[x] && bs[y].0 == paths[y]);
            } else if x < n {
                assert(bs[x].0 == paths[x]);
            }
        }
        assert forall|p: Seq<char>| #[trigger]
            has_key(bs, p) <==> name_paths.contains(p) || content@.dom().contains(p) by {
            if has_key(bs, p) {
                let k = choose|k: int| 0 <= k < bs.len() && (#[trigger] bs[k]).0 == p;
                if k < n {
                    assert(paths[k] == p);
                } else {
                    let w = choose|w: int| 0 <= w < j && named@[w] == blocks[k].deep_view().0;
                    assert(named@.contains(p));
                }
            }
            if content@.dom().contains(p) {
                let k = paths.index_of(p);
                assert(bs[k].0 == p);
            } else if name_paths.contains(p) {
                assert(named@.contains(p));
                let w = choose|w: int| 0 <= w < named@.len() && named@[w] == p;
                let k = choose|k: int| n <= k < blocks.len() && (#[trigger] blocks[k]).deep_view().0 == p;
                assert(bs[k].0 == p);
            }
        }
        assert forall|k: int| 0 <= k < bs.len() implies (#[trigger] bs[k]).1 == file_lines(
            bs[k].0,
            name_paths.contains(bs[k].0),
            entry_of(content@, bs[k].0),
        ) by {
            if k < n {
                assert(blocks[k] == with_entry[k]);
            }
        }
        assert(in_file_order(content@, bs)) by {
            assert forall|k: int| 0 <= k < bs.len() implies (content@.dom().contains((#[trigger] bs[k]).0)
                <==> k < n) by {
                if k < n {
                    assert(bs[k].0 == paths[k]);
                }
            }
            assert forall|x: int, y: int| 0 <= x < y < bs.len() && (y < n || n <= x) implies key_lt(
                (#[trigger] bs[x]).0,
                (#[trigger] bs[y]).0,
            ) by {
                if y < n {
                    assert(bs[x].0 == paths[x] && bs[y].0 == paths[y]);
                }
            }
            assert(splits_at(content@, bs, n as int));
        }
    }
    blocks
}

} // verus!
