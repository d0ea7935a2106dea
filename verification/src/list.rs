//! List items: normalising the space after the bullet, splitting an item
//! into indentation, bullet and text, and wrapping long items.
use vstd::prelude::*;
use crate::classify::list_item;
use crate::text::{
    chars_of, copy_range, digit_pred, is_ascii_digit, is_ascii_lower, is_digit_char, is_lower_char,
    is_whitespace_char, lemma_seqs_of_push, leading_ws, push_range, repeat_char, seqs_of, span,
    span_len, string_of, trim, trim_bounds, trim_start, words, ws_end, ws_pred,
};
use crate::classify::list_item_chars;
use crate::width::{str_w, width_range};
use crate::wrap::{
    fill_target, fill_target_exec, greedy_fill, greedy_lines, strings_of, strings_view, words_vec,
};

verus! {

/// Indentation, marker, then one space and the text if there is any text.
pub open spec fn marker_line(ind: Seq<char>, marker: Seq<char>, content: Seq<char>) -> Seq<char> {
    if content.len() == 0 {
        ind + marker
    } else {
        ind + marker + seq![' '] + content
    }
}

pub open spec fn is_bullet(c: char) -> bool {
    c == '-' || c == '+' || c == '*'
}

pub open spec fn is_closer(c: char) -> bool {
    c == '.' || c == ')'
}

/// A list line with exactly one space between its marker and its text: a
/// bullet `-`, `+` or `*`, digits then `.` or `)`, or a lowercase letter then
/// `.` or `)`. Any other line is returned as it is.
pub open spec fn formatted_list_line(line: Seq<char>) -> Seq<char> {
    let ind = leading_ws(line);
    let t = trim_start(line);
    let d = span_len(t, digit_pred()) as int;
    if t.len() > 0 && is_bullet(t[0]) {
        marker_line(ind, t.take(1), trim(t.skip(1)))
    } else if d > 0 {
        if d < t.len() && is_closer(t[d]) {
            marker_line(ind, t.take(d + 1), trim(t.skip(d + 1)))
        } else {
            line
        }
    } else if t.len() > 1 && is_ascii_lower(t[0]) && is_closer(t[1]) {
        marker_line(ind, t.take(2), trim(t.skip(2)))
    } else {
        line
    }
}

/// The marker, the whitespace after it and the text, once the marker's
/// length `m` is known.
pub open spec fn parts_after(ind: Seq<char>, t: Seq<char>, m: int) -> (
    Seq<char>,
    Seq<char>,
    Seq<char>,
) {
    let rest = t.skip(m);
    let sp = span_len(rest, ws_pred());
    (ind, t.take(m) + rest.take(sp as int), trim(rest.skip(sp as int)))
}

/// A list item split into its indentation, its bullet with the whitespace
/// after it, and its text; `None` for a line that is no list item.
pub open spec fn list_parts(line: Seq<char>) -> Option<(Seq<char>, Seq<char>, Seq<char>)> {
    let ind = leading_ws(line);
    let t = trim_start(line);
    let d = span_len(t, digit_pred()) as int;
    if !list_item(t) {
        None
    } else if is_bullet(t[0]) {
        Some(parts_after(ind, t, 1))
    } else if is_ascii_digit(t[0]) {
        if d < t.len() && is_closer(t[d]) {
            Some(parts_after(ind, t, d + 1))
        } else {
            None
        }
    } else if is_ascii_lower(t[0]) {
        if t.len() > 1 && is_closer(t[1]) {
            Some(parts_after(ind, t, 2))
        } else {
            None
        }
    } else {
        None
    }
}

/// The first line with `first` in front, every other with `rest` in front.
pub open spec fn hang(first: Seq<char>, rest: Seq<char>, ls: Seq<Seq<char>>) -> Seq<Seq<char>> {
    Seq::new(ls.len(), |i: int| if i == 0 { first + ls[i] } else { rest + ls[i] })
}

/// A list item wrapped to `fill` columns: the text's words greedily filled,
/// the first line after the bullet, the others aligned under the text.
pub open spec fn wrapped_list_line(line: Seq<char>, fill: int) -> Seq<Seq<char>> {
    match list_parts(line) {
        None => seq![line],
        Some((ind, bullet, content)) => {
            if content.len() == 0 || words(content).len() == 0 {
                seq![formatted_list_line(line)]
            } else {
                let target = fill_target(fill, (str_w(ind) + str_w(bullet)) as int);
                hang(
                    ind + bullet,
                    ind + repeat_char(' ', str_w(bullet)),
                    greedy_lines(words(content), target),
                )
            }
        },
    }
}

/// `s[0..a] + s[a..m] + (" " + s[b..e] if b < e)`.
fn build_marker_line(s: &[char], a: usize, m: usize, b: usize, e: usize) -> (r: Vec<char>)
    requires
        a <= m <= s@.len(),
        b <= e <= s@.len(),
    ensures
        r@ == marker_line(
            s@.subrange(0, a as int),
            s@.subrange(a as int, m as int),
            s@.subrange(b as int, e as int),
        ),
{
    let mut r: Vec<char> = Vec::new();
    push_range(&mut r, s, 0, a);
    push_range(&mut r, s, a, m);
    if b < e {
        r.push(' ');
        push_range(&mut r, s, b, e);
    }
    r
}

pub(crate) fn format_list_line_chars(line: &[char]) -> (r: Vec<char>)
    ensures
        r@ == formatted_list_line(line@),
{
    let n = line.len();
    let a = ws_end(line, 0, n);
    assert(line@.subrange(0, n as int) =~= line@);
    let ghost t = trim_start(line@);
    if a < n && (line[a] == '-' || line[a] == '+' || line[a] == '*') {
        let (b, e) = trim_bounds(line, a + 1, n);
        assert(t[0] == line@[a as int]);
        assert(t.take(1) =~= line@.subrange(a as int, a + 1));
        assert(t.skip(1) =~= line@.subrange(a + 1, n as int));
        return build_marker_line(line, a, a + 1, b, e);
    }
    assert(a < n ==> t[0] == line@[a as int]);
    let d = span(line, a, n, is_digit_char, Ghost(digit_pred()));
    if d > a {
        if d < n && (line[d] == '.' || line[d] == ')') {
            let (b, e) = trim_bounds(line, d + 1, n);
            assert(t[d - a] == line@[d as int]);
            assert(t.take(d - a + 1) =~= line@.subrange(a as int, d + 1));
            assert(t.skip(d - a + 1) =~= line@.subrange(d + 1, n as int));
            return build_marker_line(line, a, d + 1, b, e);
        }
        proof {
            if d < n {
                assert(t[d - a] == line@[d as int]);
            }
        }
        return copy_range(line, 0, n);
    }
    if a < n && a + 1 < n && is_lower_char(line[a]) && (line[a + 1] == '.' || line[a + 1] == ')') {
        let (b, e) = trim_bounds(line, a + 2, n);
        assert(t[1] == line@[a + 1]);
        assert(t.take(2) =~= line@.subrange(a as int, a + 2));
        assert(t.skip(2) =~= line@.subrange(a + 2, n as int));
        return build_marker_line(line, a, a + 2, b, e);
    }
    proof {
        if a < n && a + 1 < n {
            assert(t[1] == line@[a + 1]);
        }
    }
    copy_range(line, 0, n)
}

/// The parts of `t = s[a..n]` after a marker ending at `m`.
fn parts_from(s: &[char], a: usize, m: usize) -> (r: (Vec<char>, Vec<char>, Vec<char>))
    requires
        a <= m <= s@.len(),
    ensures
        (r.0@, r.1@, r.2@) == parts_after(
            s@.subrange(0, a as int),
            s@.subrange(a as int, s@.len() as int),
            m - a,
        ),
{
    let n = s.len();
    let ind = copy_range(s, 0, a);
    let sp = span(s, m, n, is_whitespace_char, Ghost(ws_pred()));
    let bullet = copy_range(s, a, sp);
    let (b, e) = trim_bounds(s, sp, n);
    let content = copy_range(s, b, e);
    proof {
        let t = s@.subrange(a as int, n as int);
        let rest = t.skip(m - a);
        assert(rest =~= s@.subrange(m as int, n as int));
        assert(t.take(m - a) + rest.take(sp - m) =~= s@.subrange(a as int, sp as int));
        assert(rest.skip(sp - m) =~= s@.subrange(sp as int, n as int));
    }
    (ind, bullet, content)
}

pub(crate) fn list_parts_chars(line: &[char]) -> (r: Option<(Vec<char>, Vec<char>, Vec<char>)>)
    ensures
        r is None == list_parts(line@) is None,
        r matches Some(p) ==> list_parts(line@) == Some((p.0@, p.1@, p.2@)),
{
    let n = line.len();
    let a = ws_end(line, 0, n);
    assert(line@.subrange(0, n as int) =~= line@);
    let ghost t = trim_start(line@);
    let ts = vstd::slice::slice_subrange(line, a, n);
    if !list_item_chars(ts) {
        return None;
    }
    proof {
        if a == n {
            assert(trim_start(t).len() == 0);
        }
    }
    assert(a < n);
    assert(t[0] == line@[a as int]);
    let c = line[a];
    if c == '-' || c == '+' || c == '*' {
        return Some(parts_from(line, a, a + 1));
    }
    if is_digit_char(c) {
        let d = span(line, a, n, is_digit_char, Ghost(digit_pred()));
        proof {
            if d < n {
                assert(t[d - a] == line@[d as int]);
            }
        }
        if d < n && (line[d] == '.' || line[d] == ')') {
            return Some(parts_from(line, a, d + 1));
        }
        return None;
    }
    if is_lower_char(c) {
        proof {
            if a + 1 < n {
                assert(t[1] == line@[a + 1]);
            }
        }
        if a + 1 < n && (line[a + 1] == '.' || line[a + 1] == ')') {
            return Some(parts_from(line, a, a + 2));
        }
        return None;
    }
    None
}

/// Each line with `first` in front of the first one and `rest` in front of
/// the others.
fn hang_lines(first: &[char], rest: &[char], ls: &Vec<Vec<char>>) -> (r: Vec<Vec<char>>)
    ensures
        seqs_of(r@) == hang(first@, rest@, seqs_of(ls@)),
{
    let mut r: Vec<Vec<char>> = Vec::new();
    let mut k: usize = 0;
    let ghost h = hang(first@, rest@, seqs_of(ls@));
    while k < ls.len()
        invariant
            k <= ls@.len(),
            h == hang(first@, rest@, seqs_of(ls@)),
            seqs_of(r@) == h.take(k as int),
        decreases ls@.len() - k,
    {
        let mut l: Vec<char> = Vec::new();
        if k == 0 {
            push_range(&mut l, first, 0, first.len());
            assert(first@.subrange(0, first@.len() as int) =~= first@);
        } else {
            push_range(&mut l, rest, 0, rest.len());
            assert(rest@.subrange(0, rest@.len() as int) =~= rest@);
        }
        let lk = ls[k].as_slice();
        push_range(&mut l, lk, 0, lk.len());
        assert(lk@.subrange(0, lk@.len() as int) =~= lk@);
        let ghost old_r = r@;
        r.push(l);
        proof {
            lemma_seqs_of_push(old_r, l);
            assert(h.take(k + 1) =~= h.take(k as int).push(h[k as int]));
        }
        k = k + 1;
    }
    assert(h.take(k as int) =~= h);
    r
}

pub(crate) fn wrap_list_line_chars(line: &[char], fill: usize) -> (r: Vec<Vec<char>>)
    ensures
        seqs_of(r@) == wrapped_list_line(line@, fill as int),
{
    match list_parts_chars(line) {
        None => {
            let mut r: Vec<Vec<char>> = Vec::new();
            let l = copy_range(line, 0, line.len());
            assert(line@.subrange(0, line@.len() as int) =~= line@);
            r.push(l);
            assert(seqs_of(r@) =~= seq![line@]);
            r
        },
        Some((ind, bullet, content)) => {
            let ws = words_vec(content.as_slice());
            if content.len() == 0 || ws.len() == 0 {
                let mut r: Vec<Vec<char>> = Vec::new();
                let l = format_list_line_chars(line);
                r.push(l);
                assert(seqs_of(r@) =~= seq![formatted_list_line(line@)]);
                return r;
            }
            let iw = width_range(ind.as_slice(), 0, ind.len());
            let bw = width_range(bullet.as_slice(), 0, bullet.len());
            assert(ind@.subrange(0, ind@.len() as int) =~= ind@);
            assert(bullet@.subrange(0, bullet@.len() as int) =~= bullet@);
            proof {
                crate::width::lemma_str_w_bounds(ind@);
                crate::width::lemma_str_w_bounds(bullet@);
            }
            let target = fill_target_exec(fill, iw + bw);
            let ls = greedy_fill(&ws, target);
            let mut first: Vec<char> = Vec::new();
            push_range(&mut first, ind.as_slice(), 0, ind.len());
            push_range(&mut first, bullet.as_slice(), 0, bullet.len());
            let mut rest: Vec<char> = Vec::new();
            push_range(&mut rest, ind.as_slice(), 0, ind.len());
            let mut j: u128 = 0;
            while j < bw
                invariant
                    j <= bw,
                    rest@ == ind@ + repeat_char(' ', j as nat),
                decreases bw - j,
            {
                rest.push(' ');
                j = j + 1;
                assert(rest@ =~= ind@ + repeat_char(' ', j as nat));
            }
            hang_lines(first.as_slice(), rest.as_slice(), &ls)
        },
    }
}

/// A list line with one space between its marker and its text.
pub fn format_list_line(line: &str) -> (r: String)
    ensures
        r@ == formatted_list_line(line@),
{
    let v = chars_of(line);
    let r = format_list_line_chars(v.as_slice());
    string_of(r.as_slice())
}

/// A list item split into indentation, bullet (with the whitespace after
/// it) and text; `None` for a line that is no list item.
pub fn split_list_line(line: &str) -> (r: Option<(String, String, String)>)
    ensures
        r is None == list_parts(line@) is None,
        r matches Some(p) ==> list_parts(line@) == Some((p.0@, p.1@, p.2@)),
{
    let v = chars_of(line);
    match list_parts_chars(v.as_slice()) {
        None => None,
        Some((a, b, c)) => Some((string_of(a.as_slice()), string_of(b.as_slice()), string_of(c.as_slice()))),
    }
}

/// A list item wrapped to `fill_column` columns, continuation lines aligned
/// under the item's text.
pub fn wrap_list_line(line: &str, fill_column: usize) -> (r: Vec<String>)
    ensures
        strings_view(r@) == wrapped_list_line(line@, fill_column as int),
{
    let v = chars_of(line);
    let w = wrap_list_line_chars(v.as_slice(), fill_column);
    strings_of(&w)
}

} // verus!
