//! The responsibility extractor: the one-line description that a file gives of
//! itself in a comment on its first line that is not blank.

use crate::text::{chars_of, is_whitespace, push_char, whitespace};
use vstd::prelude::*;
use vstd::string::*;

verus! {

/// The description of a file that gives none.
pub open spec fn fallback() -> Seq<char> {
    "No responsibility comment"@
}

/// The characters of a line, each with the mark that says whether it is white
/// space.
pub open spec fn marked(line: Seq<char>) -> Seq<(char, bool)> {
    line.map_values(|c: char| (c, whitespace(c)))
}

/// The characters of `s`, without their marks.
pub open spec fn unmarked(s: Seq<(char, bool)>) -> Seq<char> {
    s.map_values(|m: (char, bool)| m.0)
}

/// `s` without the white space at its start.
pub open spec fn trim_start(s: Seq<(char, bool)>) -> Seq<(char, bool)>
    decreases s.len(),
{
    if s.len() > 0 && s[0].1 {
        trim_start(s.drop_first())
    } else {
        s
    }
}

/// `s` without the white space at its end.
pub open spec fn trim_end(s: Seq<(char, bool)>) -> Seq<(char, bool)>
    decreases s.len(),
{
    if s.len() > 0 && s.last().1 {
        trim_end(s.drop_last())
    } else {
        s
    }
}

/// `s` without the white space at its start and at its end.
pub open spec fn trim(s: Seq<(char, bool)>) -> Seq<(char, bool)> {
    trim_end(trim_start(s))
}

/// Whether a trimmed line is a comment: it starts with two slashes or with a
/// hash.
pub open spec fn is_comment(t: Seq<(char, bool)>) -> bool {
    (t.len() >= 2 && t[0].0 == '/' && t[1].0 == '/') || (t.len() >= 1 && t[0].0 == '#')
}

/// What is taken off the start of a comment: white space, slashes and hashes.
pub open spec fn marker_or_space(m: (char, bool)) -> bool {
    m.1 || m.0 == '/' || m.0 == '#'
}

/// `s` without the white space, slashes and hashes at its start: all of them,
/// however many there are.
pub open spec fn strip_markers(s: Seq<(char, bool)>) -> Seq<(char, bool)>
    decreases s.len(),
{
    if s.len() > 0 && marker_or_space(s[0]) {
        strip_markers(s.drop_first())
    } else {
        s
    }
}

/// What one line says about the responsibility of its file.
#[derive(Debug)]
pub enum LineScan {
    /// The line is blank: the next line decides.
    Blank,
    /// The line is a comment, and this is the responsibility it states.
    Comment(String),
    /// The line is something else: the file states no responsibility.
    Other,
}

/// What a `LineScan` holds, as mathematical values.
pub enum LineScanView {
    Blank,
    Comment(Seq<char>),
    Other,
}

impl View for LineScan {
    type V = LineScanView;

    open spec fn view(&self) -> LineScanView {
        match self {
            LineScan::Blank => LineScanView::Blank,
            LineScan::Comment(text) => LineScanView::Comment(text@),
            LineScan::Other => LineScanView::Other,
        }
    }
}

/// What a line of marked characters says: blank if nothing is left of it when
/// it is trimmed; a comment if what is left starts with a comment marker, the
/// responsibility being what follows the markers; something else if not.
pub open spec fn scan_marked(line: Seq<(char, bool)>) -> LineScanView {
    let t = trim(line);
    if t.len() == 0 {
        LineScanView::Blank
    } else if is_comment(t) {
        LineScanView::Comment(unmarked(strip_markers(t)))
    } else {
        LineScanView::Other
    }
}

/// What a line says, white space being what `char::is_whitespace` takes for it.
pub open spec fn scan(line: Seq<char>) -> LineScanView {
    scan_marked(marked(line))
}

/// What the attempt to read the next line of a file gave.
#[derive(Debug)]
pub enum LineRead {
    /// A line of text.
    Text(String),
    /// A line that is no text: its bytes are not valid UTF-8.
    NotText,
    /// No line: the file could not be read.
    Failed,
}

/// What a `LineRead` holds, as mathematical values.
pub enum LineReadView {
    Text(Seq<char>),
    NotText,
    Failed,
}

impl View for LineRead {
    type V = LineReadView;

    open spec fn view(&self) -> LineReadView {
        match self {
            LineRead::Text(line) => LineReadView::Text(line@),
            LineRead::NotText => LineReadView::NotText,
            LineRead::Failed => LineReadView::Failed,
        }
    }
}

/// What an attempt to read a line says: a line of text says what `scan` finds
/// in it; a line that is no text is passed over as a blank line is; and a file
/// that cannot be read states no responsibility.
pub open spec fn scan_of_read(read: LineReadView) -> LineScanView {
    match read {
        LineReadView::Text(line) => scan(line),
        LineReadView::NotText => LineScanView::Blank,
        LineReadView::Failed => LineScanView::Other,
    }
}

/// The responsibility that the lines of a file state: that of the first line
/// that is not blank if it is a comment, the fallback if it is not or if there is
/// no such line.
pub open spec fn responsibility(lines: Seq<Seq<char>>) -> Seq<char>
    decreases lines.len(),
{
    if lines.len() == 0 {
        fallback()
    } else {
        match scan(lines[0]) {
            LineScanView::Blank => responsibility(lines.drop_first()),
            LineScanView::Comment(text) => text,
            LineScanView::Other => fallback(),
        }
    }
}

/// The texts of a sequence of lines, in the same order.
pub open spec fn texts(lines: Seq<String>) -> Seq<Seq<char>> {
    lines.map_values(|l: String| l@)
}

/// The description of a file that gives none.
pub fn no_responsibility() -> (text: String)
    ensures
        text@ == fallback(),
{
    String::from_str("No responsibility comment")
}

/// The place behind the white space at the start of `line`.
fn after_leading_space(line: &Vec<(char, bool)>) -> (start: usize)
    ensures
        start <= line.len(),
        line@.skip(start as int) == trim_start(line@),
{
    let mut start: usize = 0;
    assert(line@.skip(0) =~= line@);
    while start < line.len() && line[start].1
        invariant
            start <= line.len(),
            trim_start(line@.skip(start as int)) == trim_start(line@),
        decreases line.len() - start,
    {
        assert(line@.skip(start as int).drop_first() =~= line@.skip(start + 1));
        start += 1;
    }
    start
}

/// The place in front of the white space at the end of `line`, not before
/// `start`.
fn before_trailing_space(line: &Vec<(char, bool)>, start: usize) -> (end: usize)
    requires
        start <= line.len(),
    ensures
        start <= end <= line.len(),
        line@.subrange(start as int, end as int) == trim_end(line@.skip(start as int)),
{
    let mut end: usize = line.len();
    assert(line@.subrange(start as int, end as int) =~= line@.skip(start as int));
    while start < end && line[end - 1].1
        invariant
            start <= end <= line.len(),
            trim_end(line@.subrange(start as int, end as int)) == trim_end(
                line@.skip(start as int),
            ),
        decreases end - start,
    {
        assert(line@.subrange(start as int, end as int).drop_last() =~= line@.subrange(
            start as int,
            end - 1,
        ));
        end -= 1;
    }
    end
}

/// The place behind the white space, slashes and hashes at the start of the
/// part of `line` from `start` to `end`.
fn after_markers(line: &Vec<(char, bool)>, start: usize, end: usize) -> (at: usize)
    requires
        start <= end <= line.len(),
    ensures
        start <= at <= end,
        line@.subrange(at as int, end as int) == strip_markers(
            line@.subrange(start as int, end as int),
        ),
{
    let mut at: usize = start;
    while at < end && (line[at].1 || line[at].0 == '/' || line[at].0 == '#')
        invariant
            start <= at <= end,
            end <= line.len(),
            strip_markers(line@.subrange(at as int, end as int)) == strip_markers(
                line@.subrange(start as int, end as int),
            ),
        decreases end - at,
    {
        assert(line@.subrange(at as int, end as int).drop_first() =~= line@.subrange(
            at + 1,
            end as int,
        ));
        at += 1;
    }
    at
}

/// Reads one line, given as its characters, each marked as white space or not.
pub fn scan_chars(line: &Vec<(char, bool)>) -> (found: LineScan)
    ensures
        found@ == scan_marked(line@),
{
    let start = after_leading_space(line);
    let end = before_trailing_space(line, start);
    let ghost t = line@.subrange(start as int, end as int);
    assert(t == trim(line@));
    if start == end {
        return LineScan::Blank;
    }
    assert(t[0] == line@[start as int]);
    let hash = line[start].0 == '#';
    let slashes = end - start >= 2 && line[start].0 == '/' && line[start + 1].0 == '/';
    proof {
        if end - start >= 2 {
            assert(t[1] == line@[start + 1]);
        }
    }
    if hash || slashes {
        let at = after_markers(line, start, end);
        let mut text = String::new();
        let mut i: usize = at;
        assert(line@.subrange(at as int, at as int) =~= Seq::<(char, bool)>::empty());
        while i < end
            invariant
                at <= i <= end,
                end <= line.len(),
                text@ == unmarked(line@.subrange(at as int, i as int)),
            decreases end - i,
        {
            push_char(&mut text, line[i].0);
            assert(line@.subrange(at as int, i + 1) =~= line@.subrange(at as int, i as int).push(
                line@[i as int],
            ));
            i += 1;
        }
        LineScan::Comment(text)
    } else {
        LineScan::Other
    }
}

/// Reads one line of a file. A caller that reads a file line by line stops at
/// the first answer that is not `Blank`.
pub fn scan_line(line: &str) -> (found: LineScan)
    ensures
        found@ == scan(line@),
{
    let chars = chars_of(line);
    let mut with_marks: Vec<(char, bool)> = Vec::new();
    let mut i: usize = 0;
    while i < chars.len()
        invariant
            i <= chars.len(),
            chars@ == line@,
            with_marks@ == marked(line@.take(i as int)),
        decreases chars.len() - i,
    {
        let c = chars[i];
        with_marks.push((c, is_whitespace(c)));
        assert(marked(line@.take(i + 1)) =~= marked(line@.take(i as int)).push(
            (c, whitespace(c)),
        ));
        i += 1;
    }
    assert(line@.take(chars.len() as int) =~= line@);
    scan_chars(&with_marks)
}

/// Takes one step through a file that is read line by line: says what the
/// attempt to read the next line decides. The caller reads on after `Blank`,
/// and stops at any other answer.
pub fn scan_read(read: &LineRead) -> (found: LineScan)
    ensures
        found@ == scan_of_read(read@),
{
    match read {
        LineRead::Text(line) => scan_line(line.as_str()),
        LineRead::NotText => LineScan::Blank,
        LineRead::Failed => LineScan::Other,
    }
}

/// The responsibility of a file, from its lines: what the comment on the first
/// line that is not blank says, or the fallback where that line is no comment
/// or the file has no such line. Lines behind that one are not looked at.
pub fn get_responsibility(lines: &Vec<String>) -> (text: String)
    ensures
        text@ == responsibility(texts(lines@)),
{
    let ghost all = texts(lines@);
    let mut i: usize = 0;
    assert(all.skip(0) =~= all);
    while i < lines.len()
        invariant
            i <= lines.len(),
            all == texts(lines@),
            responsibility(all.skip(i as int)) == responsibility(all),
        decreases lines.len() - i,
    {
        let found = scan_line(lines[i].as_str());
        proof {
            assert(all.skip(i as int)[0] == lines@[i as int]@);
            assert(all.skip(i as int).drop_first() =~= all.skip(i + 1));
        }
        match found {
            LineScan::Blank => {},
            LineScan::Comment(text) => {
                return text;
            },
            LineScan::Other => {
                return no_responsibility();
            },
        }
        i += 1;
    }
    no_responsibility()
}

/// Only the first line that is not blank counts: once the lines of a file end
/// in a line that is not blank, whatever lines follow change nothing.
pub proof fn lemma_later_lines_do_not_count(lines: Seq<Seq<char>>, later: Seq<Seq<char>>)
    requires
        lines.len() > 0,
        scan(lines.last()) != LineScanView::Blank,
    ensures
        responsibility(lines + later) == responsibility(lines),
    decreases lines.len(),
{
    let all = lines + later;
    assert(all[0] == lines[0]);
    if lines.len() > 1 {
        assert(all.drop_first() =~= lines.drop_first() + later);
        assert(lines.drop_first().last() == lines.last());
        lemma_later_lines_do_not_count(lines.drop_first(), later);
    }
}

} // verus!
