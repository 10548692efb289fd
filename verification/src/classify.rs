//! The line classifier: splits the raw source text into lines, trims each
//! line, and classifies it by its first significant character.
use vstd::prelude::*;

use crate::ast::ASTElement;
use crate::ast::AST;
use crate::ast::LineRecord;

verus! {

/// Whether a character counts as whitespace for trimming (the Unicode
/// `White_Space` set).
pub open spec fn is_space_char(c: char) -> bool {
    c == '\u{9}' || c == '\u{a}' || c == '\u{b}' || c == '\u{c}' || c == '\u{d}' || c == ' '
        || c == '\u{85}' || c == '\u{a0}' || c == '\u{1680}' || c == '\u{2000}' || c == '\u{2001}'
        || c == '\u{2002}' || c == '\u{2003}' || c == '\u{2004}' || c == '\u{2005}'
        || c == '\u{2006}' || c == '\u{2007}' || c == '\u{2008}' || c == '\u{2009}'
        || c == '\u{200a}' || c == '\u{2028}' || c == '\u{2029}' || c == '\u{202f}'
        || c == '\u{205f}' || c == '\u{3000}'
}

/// Whitespace test on one character.
pub fn is_space(c: char) -> (result: bool)
    ensures
        result == is_space_char(c),
{
    c == '\u{9}' || c == '\u{a}' || c == '\u{b}' || c == '\u{c}' || c == '\u{d}' || c == ' '
        || c == '\u{85}' || c == '\u{a0}' || c == '\u{1680}' || c == '\u{2000}' || c == '\u{2001}'
        || c == '\u{2002}' || c == '\u{2003}' || c == '\u{2004}' || c == '\u{2005}'
        || c == '\u{2006}' || c == '\u{2007}' || c == '\u{2008}' || c == '\u{2009}'
        || c == '\u{200a}' || c == '\u{2028}' || c == '\u{2029}' || c == '\u{202f}'
        || c == '\u{205f}' || c == '\u{3000}'
}

/// Number of characters before the first line feed, or the whole length when
/// there is none.
pub open spec fn line_len(text: Seq<char>) -> int
    decreases text.len(),
{
    if text.len() == 0 {
        0
    } else if text[0] == '\n' {
        0
    } else {
        1 + line_len(text.skip(1))
    }
}

/// A line with a trailing carriage return loses it; any other line is kept.
pub open spec fn strip_cr(line: Seq<char>) -> Seq<char> {
    if line.len() > 0 && line[line.len() - 1] == '\r' {
        line.take(line.len() - 1)
    } else {
        line
    }
}

/// The lines of the text: split at each line feed, a carriage return before a
/// line feed removed, and no empty final line after a terminating line feed.
pub open spec fn split_lines(text: Seq<char>) -> Seq<Seq<char>>
    decreases text.len(),
{
    if text.len() == 0 {
        Seq::empty()
    } else {
        let k = line_len(text);
        if 0 <= k < text.len() {
            seq![strip_cr(text.take(k))] + split_lines(text.skip(k + 1))
        } else {
            seq![strip_cr(text)]
        }
    }
}

/// The line without leading whitespace.
pub open spec fn trim_start_rec(line: Seq<char>) -> Seq<char>
    decreases line.len(),
{
    if line.len() > 0 && is_space_char(line[0]) {
        trim_start_rec(line.skip(1))
    } else {
        line
    }
}

/// The line without trailing whitespace.
pub open spec fn trim_end_rec(line: Seq<char>) -> Seq<char>
    decreases line.len(),
{
    if line.len() > 0 && is_space_char(line[line.len() - 1]) {
        trim_end_rec(line.take(line.len() - 1))
    } else {
        line
    }
}

/// The line without leading and trailing whitespace.
pub open spec fn trim_of(line: Seq<char>) -> Seq<char> {
    trim_end_rec(trim_start_rec(line))
}

/// Everything after the marker and its one separator character; empty when the
/// trimmed line is that short.
pub open spec fn marker_content(trimmed: Seq<char>) -> Seq<char> {
    if trimmed.len() >= 2 {
        trimmed.skip(2)
    } else {
        Seq::empty()
    }
}

/// The record for one raw line: none when the line is blank after trimming,
/// otherwise decided by the first significant character.
pub open spec fn classify_line(line: Seq<char>) -> Option<LineRecord> {
    let trimmed = trim_of(line);
    if trimmed.len() == 0 {
        Option::None
    } else if trimmed[0] == '*' {
        Option::Some(LineRecord::Header(marker_content(trimmed)))
    } else if trimmed[0] == '+' {
        Option::Some(LineRecord::ListItem(marker_content(trimmed)))
    } else {
        Option::Some(LineRecord::Paragraph(trimmed))
    }
}

/// The records of a sequence of lines, blank lines contributing none.
pub open spec fn records_of_lines(lines: Seq<Seq<char>>) -> Seq<LineRecord>
    decreases lines.len(),
{
    if lines.len() == 0 {
        Seq::empty()
    } else {
        (match classify_line(lines[0]) {
            Option::None => Seq::empty(),
            Option::Some(record) => seq![record],
        }) + records_of_lines(lines.skip(1))
    }
}

/// The records of the whole source text, in source line order.
pub open spec fn records_of(text: Seq<char>) -> Seq<LineRecord> {
    records_of_lines(split_lines(text))
}

/// The number of lines that are non-blank after trimming.
pub open spec fn nonblank_line_count(lines: Seq<Seq<char>>) -> int
    decreases lines.len(),
{
    if lines.len() == 0 {
        0
    } else {
        (if trim_of(lines[0]).len() > 0 {
            1int
        } else {
            0int
        }) + nonblank_line_count(lines.skip(1))
    }
}

proof fn lemma_records_of_lines_count(lines: Seq<Seq<char>>)
    ensures
        records_of_lines(lines).len() == nonblank_line_count(lines),
    decreases lines.len(),
{
    if lines.len() == 0 {
    } else {
        lemma_records_of_lines_count(lines.skip(1));
    }
}

/// Law: the classifier emits exactly one record per line that is non-blank
/// after trimming, counting each list item on its own.
pub proof fn lemma_classifier_counts_nonblank_lines(text: Seq<char>)
    ensures
        records_of(text).len() == nonblank_line_count(split_lines(text)),
{
    lemma_records_of_lines_count(split_lines(text));
}

proof fn lemma_trim_start_prepend(pad: Seq<char>, line: Seq<char>)
    requires
        forall|i: int| 0 <= i < pad.len() ==> is_space_char(pad[i]),
    ensures
        trim_start_rec(pad + line) == trim_start_rec(line),
    decreases pad.len(),
{
    if pad.len() == 0 {
        assert(pad + line =~= line);
    } else {
        assert((pad + line)[0] == pad[0]);
        assert((pad + line).skip(1) =~= pad.skip(1) + line);
        assert forall|i: int| 0 <= i < pad.skip(1).len() implies is_space_char(
            pad.skip(1)[i],
        ) by {
            assert(pad.skip(1)[i] == pad[i + 1]);
        }
        lemma_trim_start_prepend(pad.skip(1), line);
    }
}

proof fn lemma_trim_end_append(line: Seq<char>, pad: Seq<char>)
    requires
        forall|i: int| 0 <= i < pad.len() ==> is_space_char(pad[i]),
    ensures
        trim_end_rec(line + pad) == trim_end_rec(line),
    decreases pad.len(),
{
    if pad.len() == 0 {
        assert(line + pad =~= line);
    } else {
        let whole = line + pad;
        assert(whole[whole.len() - 1] == pad[pad.len() - 1]);
        assert(whole.take(whole.len() - 1) =~= line + pad.take(pad.len() - 1));
        assert forall|i: int| 0 <= i < pad.take(pad.len() - 1).len() implies is_space_char(
            #[trigger] pad.take(pad.len() - 1)[i],
        ) by {
            assert(pad.take(pad.len() - 1)[i] == pad[i]);
        }
        lemma_trim_end_append(line, pad.take(pad.len() - 1));
    }
}

proof fn lemma_trim_start_concat(line: Seq<char>, pad: Seq<char>)
    requires
        trim_start_rec(line).len() > 0,
    ensures
        trim_start_rec(line + pad) == trim_start_rec(line) + pad,
    decreases line.len(),
{
    if line.len() == 0 {
        assert(false);
    } else if is_space_char(line[0]) {
        assert((line + pad)[0] == line[0]);
        assert((line + pad).skip(1) =~= line.skip(1) + pad);
        lemma_trim_start_concat(line.skip(1), pad);
    } else {
        assert((line + pad)[0] == line[0]);
    }
}

proof fn lemma_trim_start_empty_all_space(line: Seq<char>)
    requires
        trim_start_rec(line).len() == 0,
    ensures
        forall|i: int| 0 <= i < line.len() ==> is_space_char(line[i]),
    decreases line.len(),
{
    if line.len() == 0 {
    } else if is_space_char(line[0]) {
        lemma_trim_start_empty_all_space(line.skip(1));
        assert forall|i: int| 0 <= i < line.len() implies is_space_char(line[i]) by {
            if i > 0 {
                assert(line.skip(1)[i - 1] == line[i]);
            }
        }
    } else {
        assert(trim_start_rec(line) == line);
    }
}

/// Trimming ignores any whitespace padding around the line.
pub proof fn lemma_trim_pad(pad_left: Seq<char>, line: Seq<char>, pad_right: Seq<char>)
    requires
        forall|i: int| 0 <= i < pad_left.len() ==> is_space_char(pad_left[i]),
        forall|i: int| 0 <= i < pad_right.len() ==> is_space_char(pad_right[i]),
    ensures
        trim_of(pad_left + line + pad_right) == trim_of(line),
{
    assert(pad_left + line + pad_right =~= pad_left + (line + pad_right));
    lemma_trim_start_prepend(pad_left, line + pad_right);
    if trim_start_rec(line).len() > 0 {
        lemma_trim_start_concat(line, pad_right);
        lemma_trim_end_append(trim_start_rec(line), pad_right);
    } else {
        lemma_trim_start_empty_all_space(line);
        let rest = line + pad_right;
        assert forall|i: int| 0 <= i < rest.len() implies is_space_char(rest[i]) by {
            if i < line.len() {
                assert(rest[i] == line[i]);
            } else {
                assert(rest[i] == pad_right[i - line.len()]);
            }
        }
        lemma_trim_start_at(rest, rest.len() as int);
        assert(rest.skip(rest.len() as int).len() == 0);
    }
}

/// Law: a line padded with leading and trailing whitespace classifies exactly
/// as the unpadded line does.
pub proof fn lemma_classify_whitespace_insensitive(
    pad_left: Seq<char>,
    line: Seq<char>,
    pad_right: Seq<char>,
)
    requires
        forall|i: int| 0 <= i < pad_left.len() ==> is_space_char(pad_left[i]),
        forall|i: int| 0 <= i < pad_right.len() ==> is_space_char(pad_right[i]),
    ensures
        classify_line(pad_left + line + pad_right) == classify_line(line),
{
    lemma_trim_pad(pad_left, line, pad_right);
}

/// `line_len` is the index of the first line feed (the length when none).
proof fn lemma_line_len_at(text: Seq<char>, k: int)
    requires
        0 <= k <= text.len(),
        forall|i: int| 0 <= i < k ==> text[i] != '\n',
        k < text.len() ==> text[k] == '\n',
    ensures
        line_len(text) == k,
    decreases text.len(),
{
    if k == 0 {
    } else {
        assert(text[0] != '\n');
        let rest = text.skip(1);
        assert forall|i: int| 0 <= i < k - 1 implies rest[i] != '\n' by {
            assert(rest[i] == text[i + 1]);
        }
        if k - 1 < rest.len() {
            assert(rest[k - 1] == text[k]);
        }
        lemma_line_len_at(rest, k - 1);
    }
}

/// Removing a run of leading whitespace is exactly what `trim_start_rec` does.
proof fn lemma_trim_start_at(line: Seq<char>, a: int)
    requires
        0 <= a <= line.len(),
        forall|i: int| 0 <= i < a ==> is_space_char(line[i]),
        a < line.len() ==> !is_space_char(line[a]),
    ensures
        trim_start_rec(line) == line.skip(a),
    decreases a,
{
    if a == 0 {
        assert(line.skip(0) =~= line);
    } else {
        assert(is_space_char(line[0]));
        let rest = line.skip(1);
        assert forall|i: int| 0 <= i < a - 1 implies is_space_char(rest[i]) by {
            assert(rest[i] == line[i + 1]);
        }
        if a - 1 < rest.len() {
            assert(rest[a - 1] == line[a]);
        }
        lemma_trim_start_at(rest, a - 1);
        assert(rest.skip(a - 1) =~= line.skip(a));
    }
}

/// Removing a run of trailing whitespace is exactly what `trim_end_rec` does.
proof fn lemma_trim_end_at(line: Seq<char>, b: int)
    requires
        0 <= b <= line.len(),
        forall|i: int| b <= i < line.len() ==> is_space_char(line[i]),
        b > 0 ==> !is_space_char(line[b - 1]),
    ensures
        trim_end_rec(line) == line.take(b),
    decreases line.len(),
{
    if b == line.len() {
        if line.len() > 0 {
            assert(!is_space_char(line[line.len() - 1]));
        }
        assert(line.take(b) =~= line);
    } else {
        assert(is_space_char(line[line.len() - 1]));
        let rest = line.take(line.len() - 1);
        assert forall|i: int| b <= i < rest.len() implies is_space_char(rest[i]) by {
            assert(rest[i] == line[i]);
        }
        if b > 0 {
            assert(rest[b - 1] == line[b - 1]);
        }
        lemma_trim_end_at(rest, b);
        assert(rest.take(b) =~= line.take(b));
    }
}

/// Trims and classifies the line standing at `md`'s character positions
/// `[pos, line_end)`, returning no record for a blank line.
fn classify_segment(md: &str, pos: usize, line_end: usize) -> (result: Option<ASTElement>)
    requires
        pos <= line_end <= md@.len(),
    ensures
        match result {
            Option::Some(element) => classify_line(md@.subrange(pos as int, line_end as int))
                == Option::Some(element@),
            Option::None => classify_line(md@.subrange(pos as int, line_end as int)) is None,
        },
{
    let ghost raw = md@.subrange(pos as int, line_end as int);
    // Skip the leading whitespace of the line.
    let mut a: usize = pos;
    while a < line_end && is_space(md.get_char(a))
        invariant
            pos <= a <= line_end <= md@.len(),
            forall|i: int| pos <= i < a ==> is_space_char(md@[i]),
        decreases line_end - a,
    {
        a = a + 1;
    }
    if a == line_end {
        // The line is blank after trimming: no record.
        proof {
            assert forall|i: int| 0 <= i < raw.len() implies is_space_char(raw[i]) by {
                assert(raw[i] == md@[pos + i]);
            }
            lemma_trim_subrange(raw, (a - pos) as int, (a - pos) as int);
            assert(classify_line(raw) is None);
        }
        Option::None
    } else {
        // Skip the trailing whitespace of the line.
        let mut b: usize = line_end;
        while b > a && is_space(md.get_char(b - 1))
            invariant
                pos <= a < b <= line_end <= md@.len(),
                !is_space_char(md@[a as int]),
                forall|i: int| b <= i < line_end ==> is_space_char(md@[i]),
            decreases b,
        {
            b = b - 1;
        }
        let c0 = md.get_char(a);
        let text: String = if c0 == '*' || c0 == '+' {
            if b - a > 2 {
                md.substring_char(a + 2, b).to_owned()
            } else {
                String::new()
            }
        } else {
            md.substring_char(a, b).to_owned()
        };
        let element = if c0 == '*' {
            ASTElement::Header(text)
        } else if c0 == '+' {
            ASTElement::ListElement(text)
        } else {
            ASTElement::Paragraph(text)
        };
        proof {
            assert forall|i: int| 0 <= i < a - pos implies is_space_char(raw[i]) by {
                assert(raw[i] == md@[pos + i]);
            }
            assert forall|i: int| b - pos <= i < raw.len() implies is_space_char(raw[i]) by {
                assert(raw[i] == md@[pos + i]);
            }
            assert(raw[(a - pos) as int] == md@[a as int]);
            assert(raw[(b - pos - 1) as int] == md@[b - 1]);
            lemma_trim_subrange(raw, (a - pos) as int, (b - pos) as int);
            assert(raw.subrange((a - pos) as int, (b - pos) as int) =~= md@.subrange(
                a as int,
                b as int,
            ));
            let trimmed = trim_of(raw);
            assert(trimmed == md@.subrange(a as int, b as int));
            assert(trimmed[0] == md@[a as int]);
            if c0 == '*' || c0 == '+' {
                if b - a > 2 {
                    assert(trimmed.skip(2) =~= md@.subrange(a + 2, b as int));
                } else if b - a == 2 {
                    assert(trimmed.skip(2) =~= Seq::<char>::empty());
                }
                assert(text@ == marker_content(trimmed));
            }
            assert(classify_line(raw) == Option::Some(element@));
        }
        Option::Some(element)
    }
}

/// Classifies the source text into an abstract sequence carrying the title.
/// Lines are split at line feeds (a carriage return before a line feed is
/// dropped), trimmed, and classified; blank lines produce no record.
pub fn build_ast(md: &str, title: &str) -> (result: AST)
    ensures
        result@.title == title@,
        result@.elements == records_of(md@),
{
    let n = md.unicode_len();
    let mut result = AST::new(title.to_owned());
    let mut pos: usize = 0;
    proof {
        assert(md@.skip(0) =~= md@);
        assert(result@.elements + records_of_lines(split_lines(md@)) =~= records_of(md@));
    }
    while pos < n
        invariant
            pos <= n,
            n == md@.len(),
            result@.title == title@,
            records_of(md@) == result@.elements + records_of_lines(
                split_lines(md@.skip(pos as int)),
            ),
        decreases n - pos,
    {
        let ghost rem = md@.skip(pos as int);
        let ghost elems0 = result@.elements;
        // Find the end of the current line.
        let mut j: usize = pos;
        while j < n && md.get_char(j) != '\n'
            invariant
                pos <= j <= n,
                n == md@.len(),
                forall|i: int| pos <= i < j ==> md@[i] != '\n',
            decreases n - j,
        {
            j = j + 1;
        }
        proof {
            assert forall|i: int| 0 <= i < j - pos implies rem[i] != '\n' by {
                assert(rem[i] == md@[i + pos]);
            }
            if j < n {
                assert(rem[j - pos] == md@[j as int]);
            }
            lemma_line_len_at(rem, j - pos);
        }
        // Drop a carriage return left at the end by a CRLF line ending.
        let line_end = if j > pos && md.get_char(j - 1) == '\r' {
            j - 1
        } else {
            j
        };
        let ghost raw = strip_cr(rem.take(j - pos));
        proof {
            assert(rem.take(j - pos) =~= md@.subrange(pos as int, j as int));
            if j > pos && md@[j - 1] == '\r' {
                assert(md@.subrange(pos as int, j as int).take(j - pos - 1) =~= md@.subrange(
                    pos as int,
                    line_end as int,
                ));
            }
            assert(raw =~= md@.subrange(pos as int, line_end as int));
        }
        match classify_segment(md, pos, line_end) {
            Option::Some(element) => {
                result.push_element(element);
            },
            Option::None => {},
        }
        // The line just handled is the first of the remaining ones.
        proof {
            let lines = split_lines(rem);
            let head = match classify_line(raw) {
                Option::None => Seq::<LineRecord>::empty(),
                Option::Some(record) => seq![record],
            };
            if j < n {
                assert(lines == seq![raw] + split_lines(rem.skip(j - pos + 1)));
                assert(rem.skip(j - pos + 1) =~= md@.skip(j + 1));
                assert(lines.skip(1) =~= split_lines(md@.skip(j + 1)));
            } else {
                assert(rem.take(j - pos) =~= rem);
                assert(lines == seq![raw]);
                assert(md@.skip(n as int) =~= Seq::<char>::empty());
                assert(lines.skip(1) =~= split_lines(md@.skip(n as int)));
            }
            assert(lines[0] == raw);
            let next = if j < n {
                (j + 1) as int
            } else {
                n as int
            };
            let tail = records_of_lines(split_lines(md@.skip(next)));
            assert(records_of_lines(lines) == head + tail);
            assert(result@.elements =~= elems0 + head);
            assert((elems0 + head) + tail =~= elems0 + (head + tail));
        }
        pos = if j < n {
            j + 1
        } else {
            n
        };
    }
    proof {
        assert(md@.skip(n as int) =~= Seq::<char>::empty());
        assert(result@.elements + records_of_lines(split_lines(md@.skip(n as int)))
            =~= result@.elements);
    }
    result
}

/// Trimming keeps exactly the characters between the first and the last
/// non-whitespace one: the whole line is whitespace outside `[a, b)`, and when
/// the range is empty nothing of the line is left.
pub proof fn lemma_trim_subrange(line: Seq<char>, a: int, b: int)
    requires
        0 <= a <= b <= line.len(),
        forall|i: int| 0 <= i < a ==> is_space_char(line[i]),
        forall|i: int| b <= i < line.len() ==> is_space_char(line[i]),
        a < b ==> !is_space_char(line[a]) && !is_space_char(line[b - 1]),
        a == b ==> a == line.len(),
    ensures
        trim_of(line) == line.subrange(a, b),
{
    lemma_trim_start_at(line, a);
    let rest = line.skip(a);
    assert forall|i: int| b - a <= i < rest.len() implies is_space_char(rest[i]) by {
        assert(rest[i] == line[i + a]);
    }
    if b - a > 0 {
        assert(rest[b - a - 1] == line[b - 1]);
    }
    lemma_trim_end_at(rest, b - a);
    assert(rest.take(b - a) =~= line.subrange(a, b));
}

} // verus!
