//! What kind of Org line a line is: heading, list item, drawer end, plain
//! paragraph text.
use vstd::prelude::*;
use crate::case::{upper_case, to_upper};
use crate::text::{
    chars_of, ends_with, has_prefix, has_suffix, is_ascii_digit, is_ascii_lower, is_digit_char,
    is_lower_char, is_star, span, span_len, star_pred, digit_pred, starts_with, chars_eq, trim,
    trim_bounds, trim_start, ws_end,
};

verus! {

/// `:END:`, which closes a drawer.
pub open spec fn drawer_end_tag() -> Seq<char> {
    seq![':', 'E', 'N', 'D', ':']
}

/// `#+BEGIN_`, which opens a block.
pub open spec fn begin_prefix() -> Seq<char> {
    seq!['#', '+', 'B', 'E', 'G', 'I', 'N', '_']
}

/// `#+END_`, which closes a block.
pub open spec fn end_prefix() -> Seq<char> {
    seq!['#', '+', 'E', 'N', 'D', '_']
}

pub(crate) fn drawer_end_chars() -> (v: [char; 5])
    ensures
        v@ == drawer_end_tag(),
{
    let v = [':', 'E', 'N', 'D', ':'];
    assert(v@ =~= drawer_end_tag());
    v
}

pub(crate) fn begin_chars() -> (v: [char; 8])
    ensures
        v@ == begin_prefix(),
{
    let v = ['#', '+', 'B', 'E', 'G', 'I', 'N', '_'];
    assert(v@ =~= begin_prefix());
    v
}

pub(crate) fn end_chars() -> (v: [char; 6])
    ensures
        v@ == end_prefix(),
{
    let v = ['#', '+', 'E', 'N', 'D', '_'];
    assert(v@ =~= end_prefix());
    v
}

/// Nothing follows, or a space or a tab does.
pub open spec fn gap_or_end(s: Seq<char>) -> bool {
    s.len() == 0 || s[0] == ' ' || s[0] == '\t'
}

/// A heading: after optional indentation, one or more stars followed by a
/// space or the end of the line; one indented star is a list bullet instead.
pub open spec fn heading_line(line: Seq<char>) -> bool {
    let t = trim_start(line);
    let k = span_len(t, star_pred());
    &&& t.len() > 0
    &&& t[0] == '*'
    &&& (k == t.len() || t[k as int] == ' ')
    &&& !(line.len() > 0 && (line[0] == ' ' || line[0] == '\t') && k == 1)
}

/// The number of stars of a heading that starts in the first column.
pub open spec fn heading_level(line: Seq<char>) -> Option<nat> {
    let k = span_len(line, star_pred());
    if line.len() > 0 && line[0] == '*' && (k == line.len() || line[k as int] == ' ') {
        Some(k)
    } else {
        None
    }
}

/// A heading, or a line whose trimmed text ends with `:END:`.
pub open spec fn heading_or_drawer_end(line: Seq<char>) -> bool {
    heading_line(line) || has_suffix(trim(line), drawer_end_tag())
}

/// A bullet `-`, `+` or `*`; digits then `.` or `)`; or one lowercase ASCII
/// letter then `.` or `)`; in each case followed by a space, a tab or the end
/// of the line, after optional indentation.
pub open spec fn list_item(line: Seq<char>) -> bool {
    let t = trim_start(line);
    let d = span_len(t, digit_pred());
    ||| t.len() > 0 && (t[0] == '-' || t[0] == '+' || t[0] == '*') && gap_or_end(t.skip(1))
    ||| t.len() > 0 && is_ascii_digit(t[0]) && d < t.len() && (t[d as int] == '.' || t[d as int]
        == ')') && gap_or_end(t.skip(d + 1 as int))
    ||| t.len() > 1 && is_ascii_lower(t[0]) && (t[1] == '.' || t[1] == ')') && gap_or_end(
        t.skip(2),
    )
}

/// Plain text that paragraph wrapping may reflow: not blank, not a heading,
/// list item, drawer line, block boundary, keyword, comment or table row.
/// `upper` is the upper-cased text after the indentation.
pub open spec fn regular_paragraph_line(line: Seq<char>, upper: Seq<char>) -> bool {
    let t = trim_start(line);
    &&& t.len() > 0
    &&& !heading_line(line)
    &&& !list_item(t)
    &&& !(t[0] == ':' && t.last() == ':')
    &&& upper != drawer_end_tag()
    &&& !has_prefix(upper, begin_prefix())
    &&& !has_prefix(upper, end_prefix())
    &&& t[0] != '#'
    &&& t[0] != '|'
}

pub(crate) fn heading_line_chars(line: &[char]) -> (b: bool)
    ensures
        b == heading_line(line@),
{
    let n = line.len();
    let a = ws_end(line, 0, n);
    assert(line@.subrange(0, n as int) =~= line@);
    let ghost t = trim_start(line@);
    if a == n || line[a] != '*' {
        assert(a < n ==> t[0] == line@[a as int]);
        return false;
    }
    let k = span(line, a, n, is_star, Ghost(star_pred()));
    assert(t[0] == line@[a as int]);
    if k < n {
        assert(t[k - a] == line@[k as int]);
    }
    if !(k == n || line[k] == ' ') {
        return false;
    }
    if (line[0] == ' ' || line[0] == '\t') && k - a == 1 {
        return false;
    }
    true
}

pub(crate) fn heading_level_chars(line: &[char]) -> (r: Option<usize>)
    ensures
        r is Some == heading_level(line@) is Some,
        r is Some ==> r->0 == heading_level(line@)->0,
{
    let n = line.len();
    if n == 0 || line[0] != '*' {
        return None;
    }
    assert(line@.subrange(0, n as int) =~= line@);
    let k = span(line, 0, n, is_star, Ghost(star_pred()));
    if k == n || line[k] == ' ' {
        Some(k)
    } else {
        None
    }
}

pub(crate) fn heading_or_drawer_end_chars(line: &[char]) -> (b: bool)
    ensures
        b == heading_or_drawer_end(line@),
{
    if heading_line_chars(line) {
        return true;
    }
    let (lo, hi) = trim_bounds(line, 0, line.len());
    assert(line@.subrange(0, line@.len() as int) =~= line@);
    let t = vstd::slice::slice_subrange(line, lo, hi);
    let tag = drawer_end_chars();
    ends_with(t, tag.as_slice())
}

pub(crate) fn list_item_chars(line: &[char]) -> (b: bool)
    ensures
        b == list_item(line@),
{
    let n = line.len();
    let a = ws_end(line, 0, n);
    assert(line@.subrange(0, n as int) =~= line@);
    let ghost t = trim_start(line@);
    if a == n {
        return false;
    }
    assert(t[0] == line@[a as int]);
    let c = line[a];
    if c == '-' || c == '+' || c == '*' {
        proof {
            if a + 1 < n {
                assert(t.skip(1)[0] == line@[a + 1]);
            }
        }
        if a + 1 == n || line[a + 1] == ' ' || line[a + 1] == '\t' {
            return true;
        }
        return false;
    }
    if is_digit_char(c) {
        let d = span(line, a, n, is_digit_char, Ghost(digit_pred()));
        proof {
            if d < n {
                assert(t[d - a] == line@[d as int]);
            }
            if d + 1 < n {
                assert(t.skip(d - a + 1)[0] == line@[d + 1]);
            }
        }
        if d < n && (line[d] == '.' || line[d] == ')') {
            if d + 1 == n || line[d + 1] == ' ' || line[d + 1] == '\t' {
                return true;
            }
        }
        return false;
    }
    if is_lower_char(c) {
        proof {
            if a + 1 < n {
                assert(t[1] == line@[a + 1]);
            }
            if a + 2 < n {
                assert(t.skip(2)[0] == line@[a + 2]);
            }
        }
        if a + 1 < n && (line[a + 1] == '.' || line[a + 1] == ')') {
            if a + 2 == n || line[a + 2] == ' ' || line[a + 2] == '\t' {
                return true;
            }
        }
        return false;
    }
    false
}

pub(crate) fn regular_paragraph_line_chars(line: &[char], upper: &[char]) -> (b: bool)
    ensures
        b == regular_paragraph_line(line@, upper@),
{
    let n = line.len();
    let a = ws_end(line, 0, n);
    assert(line@.subrange(0, n as int) =~= line@);
    let ghost t = trim_start(line@);
    if a == n {
        return false;
    }
    if heading_line_chars(line) {
        return false;
    }
    let t_slice = vstd::slice::slice_subrange(line, a, n);
    assert(t_slice@ == t);
    if list_item_chars(t_slice) {
        return false;
    }
    assert(t[0] == line@[a as int]);
    assert(t.last() == line@[n - 1]);
    if line[a] == ':' && line[n - 1] == ':' {
        return false;
    }
    let tag = drawer_end_chars();
    if chars_eq(upper, tag.as_slice()) {
        return false;
    }
    let bp = begin_chars();
    let ep = end_chars();
    if starts_with(upper, bp.as_slice()) || starts_with(upper, ep.as_slice()) {
        return false;
    }
    if line[a] == '#' || line[a] == '|' {
        return false;
    }
    true
}

/// Whether `line` is an Org heading.
pub fn is_heading_line(line: &str) -> (b: bool)
    ensures
        b == heading_line(line@),
{
    let v = chars_of(line);
    heading_line_chars(v.as_slice())
}

/// The level (number of stars) of a heading that starts in the first column.
pub fn get_heading_level(line: &str) -> (r: Option<usize>)
    ensures
        r is Some == heading_level(line@) is Some,
        r is Some ==> r->0 == heading_level(line@)->0,
{
    let v = chars_of(line);
    heading_level_chars(v.as_slice())
}

/// Whether `line` is a heading or ends a drawer.
pub fn is_heading_or_drawer_end(line: &str) -> (b: bool)
    ensures
        b == heading_or_drawer_end(line@),
{
    let v = chars_of(line);
    heading_or_drawer_end_chars(v.as_slice())
}

/// Whether `line` is a list item.
pub fn is_list_item(line: &str) -> (b: bool)
    ensures
        b == list_item(line@),
{
    let v = chars_of(line);
    list_item_chars(v.as_slice())
}

/// Whether `line` is plain paragraph text, given the upper-cased form of its
/// text after the indentation.
pub fn is_regular_paragraph_line_with(line: &str, upper: &str) -> (b: bool)
    ensures
        b == regular_paragraph_line(line@, upper@),
{
    let v = chars_of(line);
    let u = chars_of(upper);
    regular_paragraph_line_chars(v.as_slice(), u.as_slice())
}

/// Whether `line` is plain paragraph text that wrapping may reflow.
pub fn is_regular_paragraph_line(line: &str) -> (b: bool)
    ensures
        b == regular_paragraph_line(line@, upper_case(trim_start(line@))),
{
    let v = chars_of(line);
    let n = v.len();
    let a = ws_end(v.as_slice(), 0, n);
    assert(v@.subrange(0, n as int) =~= v@);
    let t = vstd::slice::slice_subrange(v.as_slice(), a, n);
    let u = to_upper(t);
    regular_paragraph_line_chars(v.as_slice(), u.as_slice())
}

} // verus!
