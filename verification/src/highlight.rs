//! The coloured line format: matches set between escape sequences, lines
//! headed by path and line number.

use vstd::prelude::*;
use vstd::string::StringExecFns;
use vstd::utf8::decode_utf8;
use vstd::utf8::encode_utf8;
use vstd::utf8::is_char_boundary;
use vstd::utf8::valid_utf8;
use crate::order::lemma_encode_concat;
use crate::pattern::Matcher;
use crate::pattern::regex_spans;
use crate::pattern::spans_fit;
use crate::search::ContentMap;
use crate::search::ContentMatch;
use crate::search::ContentMatchView;
use crate::text::decimal;
use crate::text::push_decimal;

verus! {

/// The escape sequence that begins a highlighted match: reset, bold, red.
pub open spec fn mark_open() -> Seq<char> {
    "\x1b[0m\x1b[1m\x1b[31m"@
}

/// The escape sequence that ends a highlighted match: reset.
pub open spec fn mark_close() -> Seq<char> {
    "\x1b[0m"@
}

/// Where the last of `spans` ends, or the start of the text where there is none.
pub open spec fn end_of(spans: Seq<(usize, usize)>) -> int {
    if spans.len() == 0 {
        0
    } else {
        spans.last().1 as int
    }
}

/// The text up to the end of the last span, each span set between the marks.
pub open spec fn marked_upto(bytes: Seq<u8>, spans: Seq<(usize, usize)>) -> Seq<u8>
    decreases spans.len(),
{
    if spans.len() == 0 {
        Seq::empty()
    } else {
        let front = spans.drop_last();
        let (a, b) = spans.last();
        marked_upto(bytes, front) + bytes.subrange(end_of(front), a as int) + encode_utf8(mark_open())
            + bytes.subrange(a as int, b as int) + encode_utf8(mark_close())
    }
}

/// The whole text, given as bytes, with each span set between the marks.
pub open spec fn highlighted(bytes: Seq<u8>, spans: Seq<(usize, usize)>) -> Seq<u8> {
    marked_upto(bytes, spans) + bytes.subrange(end_of(spans), bytes.len() as int)
}

/// `text` with each of the byte ranges `spans` set between the marks.
pub open spec fn highlight_text(text: Seq<char>, spans: Seq<(usize, usize)>) -> Seq<char> {
    decode_utf8(highlighted(encode_utf8(text), spans))
}

/// A character boundary of a text is one of any prefix that reaches it.
proof fn lemma_boundary_in_prefix(bytes: Seq<u8>, a: int, b: int)
    requires
        valid_utf8(bytes),
        0 <= a <= b <= bytes.len(),
        is_char_boundary(bytes, a),
        is_char_boundary(bytes, b),
    ensures
        valid_utf8(bytes.subrange(0, b)),
        is_char_boundary(bytes.subrange(0, b), a),
{
    let head = bytes.subrange(0, b);
    vstd::utf8::valid_utf8_split(bytes, b);
    if a == b {
        vstd::utf8::is_char_boundary_start_end_of_seq(head);
    } else {
        vstd::utf8::is_char_boundary_iff_not_is_continuation_byte(bytes, a);
        vstd::utf8::is_char_boundary_iff_not_is_continuation_byte(head, a);
        assert(head[a] == bytes[a]);
    }
}

/// The part of `line` between the byte positions `from` and `to`.
fn str_between<'a>(line: &'a str, from: usize, to: usize) -> (piece: &'a str)
    requires
        from <= to <= encode_utf8(line@).len(),
        is_char_boundary(encode_utf8(line@), from as int),
        is_char_boundary(encode_utf8(line@), to as int),
    ensures
        encode_utf8(piece@) == encode_utf8(line@).subrange(from as int, to as int),
{
    proof {
        vstd::utf8::encode_utf8_valid_utf8(line@);
        lemma_boundary_in_prefix(encode_utf8(line@), from as int, to as int);
    }
    let (head, _) = line.split_at(to);
    let (_, piece) = head.split_at(from);
    assert(encode_utf8(piece@) =~= encode_utf8(line@).subrange(from as int, to as int));
    piece
}

/// Sets each of the byte ranges `spans` of `line` between the marks.
pub fn highlight_spans(line: &str, spans: &Vec<(usize, usize)>) -> (r: String)
    requires
        spans_fit(encode_utf8(line@), spans@),
    ensures
        encode_utf8(r@) == highlighted(encode_utf8(line@), spans@),
        r@ == highlight_text(line@, spans@),
{
    let ghost bytes = encode_utf8(line@);
    let mut result = String::new();
    let mut last_end: usize = 0;
    let mut i: usize = 0;
    proof {
        vstd::utf8::encode_utf8_valid_utf8(line@);
        vstd::utf8::is_char_boundary_start_end_of_seq(bytes);
        assert(encode_utf8(result@) =~= marked_upto(bytes, spans@.take(0)));
    }
    while i < spans.len()
        invariant
            i <= spans.len(),
            bytes == encode_utf8(line@),
            valid_utf8(bytes),
            spans_fit(bytes, spans@),
            last_end == end_of(spans@.take(i as int)),
            last_end <= bytes.len(),
            is_char_boundary(bytes, last_end as int),
            encode_utf8(result@) == marked_upto(bytes, spans@.take(i as int)),
        decreases spans.len() - i,
    {
        let (a, b) = spans[i];
        let ghost before = result@;
        proof {
            assert(spans@.take(i + 1).drop_last() =~= spans@.take(i as int));
            assert(spans@.take(i + 1).last() == spans@[i as int]);
            if i > 0 {
                assert(spans@.take(i as int).last() == spans@[i - 1]);
            }
        }
        let gap = str_between(line, last_end, a);
        let found = str_between(line, a, b);
        result.append(gap);
        result.append("\x1b[0m\x1b[1m\x1b[31m");
        result.append(found);
        result.append("\x1b[0m");
        proof {
            assert(result@ =~= before + gap@ + mark_open() + found@ + mark_close());
            lemma_encode_concat(before, gap@);
            lemma_encode_concat(before + gap@, mark_open());
            lemma_encode_concat(before + gap@ + mark_open(), found@);
            lemma_encode_concat(before + gap@ + mark_open() + found@, mark_close());
        }
        last_end = b;
        i += 1;
    }
    let ghost before = result@;
    proof {
        assert(spans@.take(spans.len() as int) =~= spans@);
        vstd::utf8::is_char_boundary_start_end_of_seq(bytes);
    }
    let rest = str_between(line, last_end, line.as_bytes().len());
    result.append(rest);
    proof {
        lemma_encode_concat(before, rest@);
        vstd::utf8::encode_utf8_decode_utf8(result@);
    }
    result
}

/// Sets every match of `matcher` in `line` between the marks.
pub fn highlight_matches(line: &str, matcher: &Matcher) -> (r: String)
    ensures
        r@ == highlight_text(line@, regex_spans(matcher.pattern(), matcher.case_insensitive(), line@)),
{
    let spans = matcher.find_spans(line);
    highlight_spans(line, &spans)
}

/// What stands before the text of a matched line: the path in magenta, a
/// colon, the line number in green, a colon.
pub open spec fn rg_prefix(path: Seq<char>, line_number: u64) -> Seq<char> {
    "\x1b[0m\x1b[35m"@ + path + "\x1b[0m:\x1b[0m\x1b[32m"@ + decimal(line_number as nat) + "\x1b[0m:"@
}

/// One matched line with path, line number and highlighted matches, coloured
/// in the way that tools reading coloured search output expect.
pub fn format_rg_line(path: &str, line_num: u64, content: &str, matcher: &Matcher) -> (s: String)
    ensures
        s@ == rg_prefix(path@, line_num) + highlight_text(
            content@,
            regex_spans(matcher.pattern(), matcher.case_insensitive(), content@),
        ),
{
    let text = highlight_matches(content, matcher);
    let mut s = String::new();
    s.append("\x1b[0m\x1b[35m");
    s.append(path);
    s.append("\x1b[0m:\x1b[0m\x1b[32m");
    push_decimal(&mut s, line_num);
    s.append("\x1b[0m:");
    s.append(text.as_str());
    assert(s@ =~= rg_prefix(path@, line_num) + text@);
    s
}

/// One matched line in the coloured format.
pub open spec fn rg_line(path: Seq<char>, line_number: u64, line: Seq<char>, matcher: Matcher) -> Seq<char> {
    rg_prefix(path, line_number) + highlight_text(
        line,
        regex_spans(matcher.pattern(), matcher.case_insensitive(), line),
    )
}

/// The warning that stands for a file whose lines are not shown.
pub open spec fn binary_warning(path: Seq<char>) -> Seq<char> {
    "WARNING: "@ + path + ": binary file matches"@
}

/// The coloured lines of one file: one per matched line.
pub open spec fn rg_entry_lines(path: Seq<char>, entry: Seq<ContentMatchView>, matcher: Matcher) -> Seq<
    Seq<char>,
>
    decreases entry.len(),
{
    if entry.len() == 0 {
        Seq::empty()
    } else {
        let rest = rg_entry_lines(path, entry.drop_last(), matcher);
        match entry.last() {
            ContentMatchView::Line { line_number, line } => rest.push(
                rg_line(path, line_number, line, matcher),
            ),
            ContentMatchView::BinaryFile => rest,
        }
    }
}

/// The warnings of one file: one per binary marker.
pub open spec fn rg_entry_warnings(path: Seq<char>, entry: Seq<ContentMatchView>) -> Seq<Seq<char>>
    decreases entry.len(),
{
    if entry.len() == 0 {
        Seq::empty()
    } else {
        let rest = rg_entry_warnings(path, entry.drop_last());
        match entry.last() {
            ContentMatchView::Line { .. } => rest,
            ContentMatchView::BinaryFile => rest.push(binary_warning(path)),
        }
    }
}

/// The coloured lines of the first `n` files of a content map.
pub open spec fn rg_lines(
    paths: Seq<Seq<char>>,
    entries: Seq<Seq<ContentMatchView>>,
    matcher: Matcher,
    n: int,
) -> Seq<Seq<char>>
    decreases n,
{
    if n <= 0 {
        Seq::empty()
    } else {
        rg_lines(paths, entries, matcher, n - 1) + rg_entry_lines(paths[n - 1], entries[n - 1], matcher)
    }
}

/// The warnings of the first `n` files of a content map.
pub open spec fn rg_warnings(paths: Seq<Seq<char>>, entries: Seq<Seq<ContentMatchView>>, n: int) -> Seq<
    Seq<char>,
>
    decreases n,
{
    if n <= 0 {
        Seq::empty()
    } else {
        rg_warnings(paths, entries, n - 1) + rg_entry_warnings(paths[n - 1], entries[n - 1])
    }
}

/// Reports the content matches in the coloured format, file by file in
/// ascending order of the paths and line by line. A file with a binary
/// marker shows no line; a warning for it goes to `diagnostics`.
pub fn rg_report(content: &ContentMap, matcher: &Matcher, diagnostics: &mut Vec<String>) -> (lines: Vec<
    String,
>)
    ensures
        lines.deep_view() == rg_lines(
            content.paths(),
            content.entries(),
            *matcher,
            content.paths().len() as int,
        ),
        final(diagnostics).deep_view() == old(diagnostics).deep_view() + rg_warnings(
            content.paths(),
            content.entries(),
            content.paths().len() as int,
        ),
{
    let ghost noted = diagnostics.deep_view();
    let ghost paths = content.paths();
    let ghost entries = content.entries();
    let files = content.len();
    let mut lines: Vec<String> = Vec::new();
    let mut i: usize = 0;
    proof {
        assert(lines.deep_view() =~= rg_lines(paths, entries, *matcher, 0));
        assert(diagnostics.deep_view() =~= noted + rg_warnings(paths, entries, 0));
    }
    while i < files
        invariant
            i <= files,
            files == content.paths().len(),
            content.wf(),
            paths == content.paths(),
            entries == content.entries(),
            lines.deep_view() == rg_lines(paths, entries, *matcher, i as int),
            diagnostics.deep_view() == noted + rg_warnings(paths, entries, i as int),
        decreases content.paths().len() - i,
    {
        let path = content.path(i);
        let entry = content.entry(i);
        let ghost p = paths[i as int];
        let ghost e = entries[i as int];
        let ghost lines_before = lines.deep_view();
        let ghost notes_before = diagnostics.deep_view();
        assert(p == path@);
        assert(e == entry.deep_view());
        let mut k: usize = 0;
        proof {
            assert(lines.deep_view() =~= lines_before + rg_entry_lines(p, e.take(0), *matcher));
            assert(diagnostics.deep_view() =~= notes_before + rg_entry_warnings(p, e.take(0)));
        }
        while k < entry.len()
            invariant
                k <= entry.len(),
                p == path@,
                e == entry.deep_view(),
                lines.deep_view() == lines_before + rg_entry_lines(p, e.take(k as int), *matcher),
                diagnostics.deep_view() == notes_before + rg_entry_warnings(p, e.take(k as int)),
            decreases entry.len() - k,
        {
            let ghost l0 = lines.deep_view();
            let ghost d0 = diagnostics.deep_view();
            proof {
                assert(e.take(k + 1).drop_last() =~= e.take(k as int));
                assert(e.take(k + 1).last() == entry[k as int]@);
            }
            match &entry[k] {
                ContentMatch::Line { line_number, line } => {
                    let text = format_rg_line(path.as_str(), *line_number, line.as_str(), matcher);
                    lines.push(text);
                    assert(lines.deep_view() =~= l0.push(rg_line(p, *line_number, line@, *matcher)));
                },
                ContentMatch::BinaryFile => {
                    let mut note = String::new();
                    note.append("WARNING: ");
                    note.append(path.as_str());
                    note.append(": binary file matches");
                    assert(note@ =~= binary_warning(p));
                    diagnostics.push(note);
                    assert(diagnostics.deep_view() =~= d0.push(binary_warning(p)));
                },
            }
            k += 1;
        }
        proof {
            assert(e.take(entry.len() as int) =~= e);
        }
        i += 1;
    }
    lines
}

} // verus!
