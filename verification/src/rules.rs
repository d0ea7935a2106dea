//! The formatting rules stated directly in terms of each line's text: widths
//! of characters, list markers, and what each kind of line writes and how far
//! from the line before it.
use vstd::prelude::*;
use crate::classify::{
    begin_prefix, drawer_end_tag, end_prefix, gap_or_end, heading_level, heading_line,
    heading_or_drawer_end, list_item, regular_paragraph_line,
};
use crate::format::{
    blank, blanks, block_open_line, closing_tag, formatted_org, leading_blank, drawer_open, last_is_header, step, Acc, Cases, FormatOptions,
    Mode,
};
use crate::wrap::{fill_target, greedy_fold, greedy_lines, paragraph_words, wrapped_paragraph};
use crate::laws::{
    is_trimmed, lemma_trim_end_noop, lemma_trim_trimmed,
    lemma_paragraph_words_proper, list_prefix, plain_text_line, proper_words, settled,
};
use crate::list::{formatted_list_line, is_bullet, list_parts, parts_after, wrapped_list_line};
use crate::text::{
    all_ws, digit_pred, first_word, lemma_ws_prefix, lemma_span_concat, lemma_ws_suffix, lines,
    not_newline_pred, ws_pred, ws_suffix_len, has_prefix, is_ascii_digit, is_ascii_lower, is_ws, leading_ws,
    lemma_leading_ws, lemma_span, lemma_span_all, lemma_span_unique, lemma_trim_start_noop,
    lemma_words_shape, lemma_words_single, lemma_words_split, no_ws, not_colon_pred,
    repeat_char, span_len, star_pred, trim, trim_end, trim_start, words,
};
use crate::width::{char_w, lemma_str_w_concat, lemma_str_w_spaces, str_w};

verus! {

/// The width table: a tab is eight columns; Hangul Jamo (U+1100–U+11FF),
/// CJK radicals (U+2E80–U+2EFF), CJK symbols and punctuation
/// (U+3000–U+303F), Hiragana (U+3040–U+309F), Katakana (U+30A0–U+30FF),
/// Hangul compatibility Jamo (U+3130–U+318F), enclosed CJK (U+3200–U+32FF),
/// CJK extension A (U+3400–U+4DBF), CJK unified ideographs (U+4E00–U+9FFF),
/// CJK compatibility ideographs (U+F900–U+FAFF), half- and full-width forms
/// (U+FF00–U+FFEF), Hangul syllables (U+AC00–U+D7AF) and planes 2 and 3
/// (U+20000–U+3FFFD) are two columns; every other character is one.
pub proof fn law_char_width_table(c: char)
    ensures
        c == '\t' ==> char_w(c) == 8,
        c != '\t' ==> ({
            let u = c as u32;
            let wide = (0x1100 <= u <= 0x11FF) || (0x2E80 <= u <= 0x2EFF) || (0x3000 <= u
                <= 0x303F) || (0x3040 <= u <= 0x309F) || (0x30A0 <= u <= 0x30FF) || (0x3130 <= u
                <= 0x318F) || (0x3200 <= u <= 0x32FF) || (0x3400 <= u <= 0x4DBF) || (0x4E00 <= u
                <= 0x9FFF) || (0xF900 <= u <= 0xFAFF) || (0xFF00 <= u <= 0xFFEF) || (0xAC00 <= u
                <= 0xD7AF) || (0x20000 <= u <= 0x3FFFD);
            char_w(c) == if wide {
                2int
            } else {
                1int
            }
        }),
{
}

/// Japanese kana (Hiragana U+3040–U+309F, Katakana U+30A0–U+30FF) are two
/// columns each, so a string of kana is twice as wide as it is long.
pub proof fn law_kana_width(s: Seq<char>)
    requires
        forall|i: int| 0 <= i < s.len() ==> 0x3040 <= (#[trigger] s[i] as u32) <= 0x30FF,
    ensures
        forall|i: int| 0 <= i < s.len() ==> char_w(#[trigger] s[i]) == 2,
        str_w(s) == 2 * s.len(),
    decreases s.len(),
{
    if s.len() > 0 {
        let d = s.drop_last();
        assert forall|i: int| 0 <= i < d.len() implies 0x3040 <= (#[trigger] d[i] as u32) <= 0x30FF by {
            assert(d[i] == s[i]);
        }
        law_kana_width(d);
        assert(0x3040 <= (s[s.len() - 1] as u32) <= 0x30FF);
        assert(s.last() != '\t');
    }
}

/// The text after a list marker: nothing, or one space and the trimmed rest.
pub open spec fn one_space_then(rest: Seq<char>) -> Seq<char> {
    if trim(rest).len() == 0 {
        seq![]
    } else {
        seq![' '] + trim(rest)
    }
}

/// A list marker of length `m` at the start of the trimmed line: a bullet
/// `-`, `+` or `*` (length 1); one or more ASCII digits then `.` or `)`; or
/// one lowercase ASCII letter then `.` or `)` (length 2).
pub open spec fn list_marker(t: Seq<char>, m: int) -> bool {
    ||| (m == 1 && t.len() > 0 && (t[0] == '-' || t[0] == '+' || t[0] == '*'))
    ||| (2 <= m <= t.len() && (forall|i: int| 0 <= i < m - 1 ==> is_ascii_digit(#[trigger] t[i]))
        && (t[m - 1] == '.' || t[m - 1] == ')'))
    ||| (m == 2 && t.len() >= 2 && is_ascii_lower(t[0]) && (t[1] == '.' || t[1] == ')'))
}

/// Normalising a list line keeps its indentation and marker (whatever the
/// number of digits) and puts exactly one space between the marker and the
/// trimmed text after it, or nothing when there is no text.
pub proof fn law_list_marker_normalised(line: Seq<char>, m: int)
    requires
        list_marker(trim_start(line), m),
    ensures
        formatted_list_line(line) == leading_ws(line) + trim_start(line).take(m) + one_space_then(
            trim_start(line).skip(m),
        ),
{
    let t = trim_start(line);
    let ind = leading_ws(line);
    assert(('-' as u32) == 0x2D && ('+' as u32) == 0x2B && ('*' as u32) == 0x2A);
    assert(('.' as u32) == 0x2E && (')' as u32) == 0x29);
    if m == 1 && t.len() > 0 && (t[0] == '-' || t[0] == '+' || t[0] == '*') {
    } else if 2 <= m <= t.len() && (forall|i: int| 0 <= i < m - 1 ==> is_ascii_digit(#[trigger] t[i]))
        && (t[m - 1] == '.' || t[m - 1] == ')') {
        if m - 1 > 0 {
            assert(is_ascii_digit(t[0]));
        }
        assert forall|i: int| 0 <= i < m - 1 implies #[trigger] digit_pred()(t[i]) by {
            assert(is_ascii_digit(t[i]));
        }
        if m == 1 {
            assert(false);
        }
        lemma_span_unique(t, digit_pred(), m - 1);
        if m - 1 == 0 {
            assert(false);
        }
        assert(t[0] != '-' && t[0] != '+' && t[0] != '*');
    } else {
        assert(!is_ascii_digit(t[0]));
        assert(span_len(t, digit_pred()) == 0);
    }
}

/// The empty lines owed before body text: none at the start of the
/// document, `hb` after a heading or drawer end, otherwise those the blank
/// lines of the input left.
pub open spec fn body_blank_lines(a: Acc, hb: nat) -> nat {
    if a.first {
        0
    } else if last_is_header(a.out) {
        hb
    } else {
        a.pending
    }
}

/// A plain text line is written, trailing whitespace cut, after the empty
/// lines owed: `heading_to_body_spacing` of them after a heading.
pub proof fn law_text_line_spacing(a: Acc, raw: Seq<char>, c: Cases, o: FormatOptions)
    requires
        a.mode is Normal,
        a.para.len() == 0,
        plain_text_line(raw, c, o),
    ensures
        step(a, raw, c, o).out == a.out + blanks(
            body_blank_lines(a, o.heading_to_body_spacing as nat),
        ) + seq![trim_end(raw)],
        step(a, raw, c, o).pending == 0,
        !step(a, raw, c, o).first,
        step(a, raw, c, o).mode is Normal,
{
    assert(blanks(0) =~= Seq::<Seq<char>>::empty());
    assert(a.out + blanks(0) =~= a.out);
}

/// A list item is written normalised (or wrapped, with list wrapping on)
/// after the empty lines owed: `heading_to_body_spacing` of them right
/// after a heading or drawer end.
pub proof fn law_list_line_spacing(a: Acc, raw: Seq<char>, c: Cases, o: FormatOptions)
    requires
        a.mode is Normal,
        a.para.len() == 0,
        trim(raw).len() > 0,
        !has_prefix(c.upper_trimmed, begin_prefix()),
        !drawer_open(c.upper_trimmed),
        !heading_line(raw),
        list_item(trim_end(raw)),
    ensures
        step(a, raw, c, o).out == a.out + blanks(
            body_blank_lines(a, o.heading_to_body_spacing as nat),
        ) + if o.wrap_lists {
            wrapped_list_line(trim_end(raw), o.fill_column as int)
        } else {
            seq![formatted_list_line(trim_end(raw))]
        },
        step(a, raw, c, o).pending == 0,
        !step(a, raw, c, o).first,
        step(a, raw, c, o).mode is Normal,
{
    assert(blanks(0) =~= Seq::<Seq<char>>::empty());
    assert(a.out + blanks(0) =~= a.out);
}

/// A heading is written without its surrounding whitespace after
/// `heading_to_heading_spacing` empty lines when it follows a heading or
/// drawer end, none at the start of the document, one otherwise.
pub proof fn law_heading_line_spacing(a: Acc, raw: Seq<char>, c: Cases, o: FormatOptions)
    requires
        a.mode is Normal,
        a.para.len() == 0,
        trim(raw).len() > 0,
        !has_prefix(c.upper_trimmed, begin_prefix()),
        !drawer_open(c.upper_trimmed),
        heading_line(raw),
    ensures
        step(a, raw, c, o).out == a.out + blanks(
            if last_is_header(a.out) {
                o.heading_to_heading_spacing as nat
            } else if a.first {
                0
            } else {
                1
            },
        ) + seq![trim(raw)],
        step(a, raw, c, o).pending == 0,
        !step(a, raw, c, o).first,
{
}

/// A line that opens a block is written after the empty lines owed
/// (`heading_to_body_spacing` right after a heading), starting with its own
/// indentation and the upper-cased keyword; the block it opens ends at the
/// tag `#+END_` and the upper-cased keyword's suffix.
pub proof fn law_block_open_spacing(a: Acc, raw: Seq<char>, c: Cases, o: FormatOptions)
    requires
        a.mode is Normal,
        a.para.len() == 0,
        trim(raw).len() > 0,
        has_prefix(c.upper_trimmed, begin_prefix()),
    ensures
        ({
            let b = step(a, raw, c, o);
            let n = body_blank_lines(a, o.heading_to_body_spacing as nat);
            &&& b.out.len() == a.out.len() + n + 1
            &&& b.out.drop_last() == a.out + blanks(n)
            &&& has_prefix(b.out.last(), leading_ws(raw) + c.upper_first_word)
            &&& b.out.last() == block_open_line(raw, c)
            &&& b.mode == Mode::InBlock(closing_tag(c.upper_trimmed))
            &&& b.pending == 0
            &&& !b.first
        }),
{
    let b = step(a, raw, c, o);
    let n = body_blank_lines(a, o.heading_to_body_spacing as nat);
    assert(blanks(0) =~= Seq::<Seq<char>>::empty());
    assert(a.out + blanks(0) =~= a.out);
    assert(b.out.drop_last() =~= a.out + blanks(n));
    let l = b.out.last();
    let p = leading_ws(raw) + c.upper_first_word;
    assert(l.take(p.len() as int) =~= p);
}

/// Inside a block, the line whose upper-cased trimmed text starts with the
/// closing tag closes it: it is written as its own indentation followed by
/// the tag, one empty line is owed after it, and ordinary text resumes.
pub proof fn law_block_close(a: Acc, raw: Seq<char>, c: Cases, o: FormatOptions)
    requires
        a.mode is InBlock,
        has_prefix(c.upper_trimmed, a.mode->InBlock_0),
    ensures
        step(a, raw, c, o).out == a.out.push(leading_ws(raw) + a.mode->InBlock_0),
        step(a, raw, c, o).mode is Normal,
        step(a, raw, c, o).pending == 1,
        step(a, raw, c, o).first == a.first,
        step(a, raw, c, o).para == a.para,
{
}

/// A line that opens a drawer is written upper-cased, directly under a
/// heading or drawer end (no empty line), otherwise after the empty lines
/// owed. An indented drawer under a heading of level `k` is indented by
/// `k + 1` spaces; any other keeps its own indentation. The drawer's lines
/// get that indentation.
pub proof fn law_drawer_open(a: Acc, raw: Seq<char>, c: Cases, o: FormatOptions)
    requires
        a.mode is Normal,
        a.para.len() == 0,
        trim(raw).len() > 0,
        !has_prefix(c.upper_trimmed, begin_prefix()),
        drawer_open(c.upper_trimmed),
    ensures
        ({
            let b = step(a, raw, c, o);
            let ind = if last_is_header(a.out) && leading_ws(raw).len() > 0 && heading_level(
                a.out.last(),
            ) is Some {
                repeat_char(' ', heading_level(a.out.last())->0 + 1)
            } else {
                leading_ws(raw)
            };
            let n: nat = if last_is_header(a.out) || a.first {
                0
            } else {
                a.pending
            };
            &&& b.out == a.out + blanks(n) + seq![ind + c.upper_trimmed]
            &&& b.mode == Mode::InDrawer(ind)
            &&& !b.first
        }),
{
    assert(blanks(0) =~= Seq::<Seq<char>>::empty());
    assert(a.out + blanks(0) =~= a.out);
}

/// Inside a drawer: the `:END:` line closes it, written with the drawer's
/// indentation, and `heading_to_body_spacing` empty lines are owed; blank
/// lines are dropped; every other line is written as the drawer's
/// indentation followed by its trimmed text, except that a property
/// `:NAME:` gets exactly one space before its value (none without a value).
pub proof fn law_drawer_lines(a: Acc, raw: Seq<char>, c: Cases, o: FormatOptions)
    requires
        a.mode is InDrawer,
    ensures
        ({
            let ind = a.mode->InDrawer_0;
            let b = step(a, raw, c, o);
            let x = trim(raw);
            &&& c.upper_trimmed == drawer_end_tag() ==> {
                &&& b.out == a.out.push(ind + drawer_end_tag())
                &&& b.mode is Normal
                &&& b.pending == o.heading_to_body_spacing
            }
            &&& (c.upper_trimmed != drawer_end_tag() && x.len() == 0) ==> b == a
            &&& (c.upper_trimmed != drawer_end_tag() && x.len() > 0) ==> {
                &&& b.mode == a.mode
                &&& b.pending == a.pending
                &&& b.out.len() == a.out.len() + 1
                &&& b.out.drop_last() == a.out
                &&& has_prefix(b.out.last(), ind)
                &&& (x[0] != ':' ==> b.out.last() == ind + x)
                &&& ((x[0] == ':' && forall|i: int| 1 <= i < x.len() ==> x[i] != ':')
                    ==> b.out.last() == ind + x)
                &&& forall|p: int|
                    #![trigger x[p]]
                    1 <= p < x.len() && x[0] == ':' && x[p] == ':' && (forall|i: int|
                        1 <= i < p ==> x[i] != ':') ==> b.out.last() == ind + x.take(p + 1)
                        + one_space_then(x.skip(p + 1))
            }
        }),
{
    let ind = a.mode->InDrawer_0;
    let b = step(a, raw, c, o);
    let x = trim(raw);
    if c.upper_trimmed != drawer_end_tag() && x.len() > 0 {
        let l = b.out.last();
        assert(b.out.drop_last() =~= a.out);
        assert(l.take(ind.len() as int) =~= ind);
        let r = x.skip(1);
        if x[0] == ':' && forall|i: int| 1 <= i < x.len() ==> x[i] != ':' {
            assert forall|i: int| 0 <= i < r.len() implies #[trigger] not_colon_pred()(r[i]) by {
                assert(r[i] == x[i + 1]);
            }
            lemma_span_all(r, not_colon_pred());
        }
        assert forall|p: int|
            #![trigger x[p]]
            1 <= p < x.len() && x[0] == ':' && x[p] == ':' && (forall|i: int|
                1 <= i < p ==> x[i] != ':') implies l == ind + x.take(p + 1) + one_space_then(
            x.skip(p + 1),
        ) by {
            assert forall|i: int| 0 <= i < p - 1 implies #[trigger] not_colon_pred()(r[i]) by {
                assert(r[i] == x[i + 1]);
            }
            assert(r[p - 1] == x[p]);
            lemma_span_unique(r, not_colon_pred(), p - 1);
            assert(ind + x.take(p + 1) + seq![] =~= ind + x.take(p + 1));
        }
    }
}


/// A heading: after the indentation, a run of `k >= 1` stars followed by a
/// space or the end of the line; but one star on an indented line is a list
/// bullet, not a heading.
pub proof fn law_heading_line_rule(line: Seq<char>, k: int)
    requires
        1 <= k <= trim_start(line).len(),
        forall|i: int| 0 <= i < k ==> #[trigger] trim_start(line)[i] == '*',
        k == trim_start(line).len() || trim_start(line)[k] != '*',
    ensures
        heading_line(line) == ((k == trim_start(line).len() || trim_start(line)[k] == ' ') && !(
        line.len() > 0 && (line[0] == ' ' || line[0] == '\t') && k == 1)),
{
    let t = trim_start(line);
    assert forall|i: int| 0 <= i < k implies #[trigger] star_pred()(t[i]) by {
        assert(t[i] == '*');
    }
    lemma_span_unique(t, star_pred(), k);
}

/// No heading without a star after the indentation.
pub proof fn law_heading_needs_star(line: Seq<char>)
    ensures
        heading_line(line) ==> trim_start(line).len() > 0 && trim_start(line)[0] == '*',
{
}

/// A list item is a line whose text after the indentation starts with a
/// list marker followed by a space, a tab or the end of the line.
pub proof fn law_list_item_rule(line: Seq<char>)
    ensures
        list_item(line) == (exists|m: int|
            #[trigger] list_marker(trim_start(line), m) && gap_or_end(trim_start(line).skip(m))),
{
    let t = trim_start(line);
    let d = span_len(t, digit_pred()) as int;
    lemma_span(t, digit_pred());
    assert(('-' as u32) == 0x2D && ('+' as u32) == 0x2B && ('*' as u32) == 0x2A);
    assert(('.' as u32) == 0x2E && (')' as u32) == 0x29);
    if list_item(line) {
        if t.len() > 0 && (t[0] == '-' || t[0] == '+' || t[0] == '*') && gap_or_end(t.skip(1)) {
            assert(list_marker(t, 1));
        } else if t.len() > 0 && is_ascii_digit(t[0]) && d < t.len() && (t[d] == '.' || t[d]
            == ')') && gap_or_end(t.skip(d + 1)) {
            assert forall|i: int| 0 <= i < d implies is_ascii_digit(#[trigger] t[i]) by {
                assert(digit_pred()(t[i]));
            }
            assert(list_marker(t, d + 1));
        } else {
            assert(list_marker(t, 2));
        }
    }
    assert forall|m: int| #[trigger] list_marker(t, m) && gap_or_end(t.skip(m)) implies list_item(
        line,
    ) by {
        if 2 <= m <= t.len() && (forall|i: int| 0 <= i < m - 1 ==> is_ascii_digit(#[trigger] t[i]))
            && (t[m - 1] == '.' || t[m - 1] == ')') && !(m == 2 && is_ascii_lower(t[0])) {
            assert forall|i: int| 0 <= i < m - 1 implies #[trigger] digit_pred()(t[i]) by {
                assert(is_ascii_digit(t[i]));
            }
            lemma_span_unique(t, digit_pred(), m - 1);
            if m - 1 == 0 {
                assert(t[0] == '.' || t[0] == ')');
            }
        }
    }
}

/// A line with no list marker after its indentation is left as it is.
pub proof fn law_non_list_line_unchanged(line: Seq<char>)
    requires
        forall|m: int| !#[trigger] list_marker(trim_start(line), m),
    ensures
        formatted_list_line(line) == line,
{
    let t = trim_start(line);
    let d = span_len(t, digit_pred()) as int;
    lemma_span(t, digit_pred());
    assert(!list_marker(t, 1));
    assert(!list_marker(t, 2));
    assert(!list_marker(t, d + 1));
    if d > 0 && d < t.len() && (t[d] == '.' || t[d] == ')') {
        assert forall|i: int| 0 <= i < d implies is_ascii_digit(#[trigger] t[i]) by {
            assert(digit_pred()(t[i]));
        }
    }
}

/// The block opened by a line whose upper-cased trimmed text is `#+BEGIN_`,
/// a keyword `k` and then whitespace or nothing is closed by `#+END_` and
/// the same keyword.
pub proof fn law_closing_tag(k: Seq<char>, rest: Seq<char>)
    requires
        no_ws(k),
        rest.len() == 0 || is_ws(rest[0]),
    ensures
        closing_tag(begin_prefix() + k + rest) == end_prefix() + k,
{
    let w = begin_prefix() + k;
    let u = w + rest;
    assert(no_ws(w)) by {
        assert forall|i: int| 0 <= i < w.len() implies !is_ws(#[trigger] w[i]) by {
            if i < 8 {
                assert(('#' as u32) == 0x23 && ('+' as u32) == 0x2B && ('_' as u32) == 0x5F);
                assert(('B' as u32) == 0x42 && ('E' as u32) == 0x45 && ('G' as u32) == 0x47);
                assert(('I' as u32) == 0x49 && ('N' as u32) == 0x4E);
            } else {
                assert(w[i] == k[i - 8]);
            }
        }
    }
    lemma_words_single(w);
    if rest.len() == 0 {
        assert(u =~= w);
    } else {
        assert(u =~= w + seq![rest[0]] + rest.skip(1));
        lemma_words_split(w, rest[0], rest.skip(1));
    }
    assert(first_word(u) == w);
    assert(w.take(8) =~= begin_prefix());
    assert(w.skip(8) =~= k);
}

/// A blank line in ordinary text writes nothing but a waiting paragraph and
/// leaves exactly one empty line owed, however many blank lines came before.
pub proof fn law_blank_line(a: Acc, raw: Seq<char>, c: Cases, o: FormatOptions)
    requires
        a.mode is Normal,
        blank(raw),
    ensures
        a.para.len() == 0 ==> step(a, raw, c, o) == (Acc {
            mode: a.mode,
            out: a.out,
            pending: 1,
            first: a.first,
            para: a.para,
        }),
        a.para.len() > 0 ==> step(a, raw, c, o) == (Acc {
            mode: a.mode,
            out: a.out + blanks(
                if a.first {
                    0
                } else {
                    a.pending
                },
            ) + wrapped_paragraph(a.para, o.fill_column as int),
            pending: 1,
            first: false,
            para: seq![],
        }),
{
    assert(blanks(0) =~= Seq::<Seq<char>>::empty());
    assert(a.out + blanks(0) =~= a.out);
}


/// Line `x` was ended because the first word of the following line `y`
/// would not have fit after it and a space.
pub open spec fn ended_full(x: Seq<char>, y: Seq<char>, target: int) -> bool {
    words(y).len() > 0 && str_w(x) + 1 + str_w(words(y)[0]) > target
}

proof fn lemma_greedy_fold_maximal(ws: Seq<Seq<char>>, target: int)
    requires
        proper_words(ws),
    ensures
        ({
            let (done, cur) = greedy_fold(ws, target);
            &&& forall|i: int|
                0 <= i < done.len() - 1 ==> ended_full(#[trigger] done[i], done[i + 1], target)
            &&& done.len() > 0 ==> cur.len() > 0 && ended_full(done.last(), cur, target)
            &&& cur.len() > 0 ==> words(cur).len() > 0
        }),
    decreases ws.len(),
{
    if ws.len() > 0 {
        let d = ws.drop_last();
        assert(proper_words(d)) by {
            assert forall|j: int| 0 <= j < d.len() implies (#[trigger] d[j]).len() > 0 && no_ws(
                d[j],
            ) by {
                assert(d[j] == ws[j]);
            }
        }
        lemma_greedy_fold_maximal(d, target);
        let (done, cur) = greedy_fold(d, target);
        let w = ws.last();
        assert(w == ws[ws.len() - 1]);
        lemma_words_single(w);
        assert(is_ws(' ')) by {
            assert((' ' as u32) == 0x20);
        }
        if cur.len() == 0 {
        } else if str_w(cur) + 1 + str_w(w) <= target {
            lemma_words_split(cur, ' ', w);
            let nc = cur + seq![' '] + w;
            assert(words(nc) == words(cur) + seq![w]);
            assert(words(nc)[0] == words(cur)[0]);
        } else {
            let nd = done.push(cur);
            assert forall|i: int| 0 <= i < nd.len() - 1 implies ended_full(
                #[trigger] nd[i],
                nd[i + 1],
                target,
            ) by {
                if i < done.len() - 1 {
                    assert(nd[i] == done[i]);
                    assert(nd[i + 1] == done[i + 1]);
                } else {
                    assert(nd[i] == done.last());
                    assert(nd[i + 1] == cur);
                }
            }
        }
    }
}

/// Greedy filling ends a line only when the next word would not fit: every
/// line but the last, plus a space and the first word of the line after
/// it, is wider than the target.
pub proof fn law_greedy_maximal(ws: Seq<Seq<char>>, target: int)
    requires
        proper_words(ws),
    ensures
        forall|i: int|
            0 <= i < greedy_lines(ws, target).len() - 1 ==> ended_full(
                #[trigger] greedy_lines(ws, target)[i],
                greedy_lines(ws, target)[i + 1],
                target,
            ),
{
    lemma_greedy_fold_maximal(ws, target);
    let (done, cur) = greedy_fold(ws, target);
    if cur.len() > 0 {
        let g = done.push(cur);
        assert forall|i: int| 0 <= i < g.len() - 1 implies ended_full(
            #[trigger] g[i],
            g[i + 1],
            target,
        ) by {
            if i < done.len() - 1 {
                assert(g[i] == done[i]);
                assert(g[i + 1] == done[i + 1]);
            } else {
                assert(g[i] == done.last());
                assert(g[i + 1] == cur);
            }
        }
    }
}


/// A refilled paragraph's lines are as full as they can be: when the fill
/// column leaves room after the indentation, every line but the last, plus
/// a space and the first word of the next line, is wider than the fill
/// column.
pub proof fn law_wrap_paragraph_maximal(p: Seq<Seq<char>>, fill: int)
    requires
        p.len() > 0,
        fill > str_w(leading_ws(p[0])),
    ensures
        forall|i: int|
            0 <= i < wrapped_paragraph(p, fill).len() - 1 ==> ended_full(
                #[trigger] wrapped_paragraph(p, fill)[i],
                wrapped_paragraph(p, fill)[i + 1],
                fill,
            ),
{
    let ind = leading_ws(p[0]);
    let ws = paragraph_words(p);
    let target = fill_target(fill, str_w(ind) as int);
    let g = greedy_lines(ws, target);
    let out = wrapped_paragraph(p, fill);
    lemma_paragraph_words_proper(p);
    law_greedy_maximal(ws, target);
    lemma_leading_ws(p[0]);
    assert forall|i: int| 0 <= i < out.len() - 1 implies ended_full(
        #[trigger] out[i],
        out[i + 1],
        fill,
    ) by {
        assert(ended_full(g[i], g[i + 1], target));
        assert(out[i] == ind + g[i]);
        assert(out[i + 1] == ind + g[i + 1]);
        lemma_ws_prefix(ind, g[i + 1]);
        lemma_str_w_concat(ind, g[i]);
    }
}

/// A wrapped list item's lines are as full as they can be: when the fill
/// column leaves room after indentation and bullet, every line but the
/// last, plus a space and the first word of the next line, is wider than
/// the fill column.
pub proof fn law_wrap_list_line_maximal(line: Seq<char>, fill: int)
    requires
        list_parts(line) is Some,
        words(list_parts(line).unwrap().2).len() > 0,
        fill > str_w(list_parts(line).unwrap().0) + str_w(list_parts(line).unwrap().1),
    ensures
        forall|i: int|
            0 <= i < wrapped_list_line(line, fill).len() - 1 ==> ended_full(
                #[trigger] wrapped_list_line(line, fill)[i],
                wrapped_list_line(line, fill)[i + 1],
                fill,
            ),
{
    let (ind, bullet, content) = list_parts(line).unwrap();
    let ws = words(content);
    let target = fill_target(fill, (str_w(ind) + str_w(bullet)) as int);
    let g = greedy_lines(ws, target);
    let out = wrapped_list_line(line, fill);
    assert(content.len() > 0);
    lemma_words_shape(content);
    law_greedy_maximal(ws, target);
    lemma_str_w_spaces(str_w(bullet));
    lemma_str_w_concat(ind, bullet);
    lemma_str_w_concat(ind, repeat_char(' ', str_w(bullet)));
    lemma_leading_ws(line);
    assert(all_ws(ind + repeat_char(' ', str_w(bullet)))) by {
        let r = ind + repeat_char(' ', str_w(bullet));
        assert forall|i: int| 0 <= i < r.len() implies is_ws(#[trigger] r[i]) by {
            if i < ind.len() {
                assert(r[i] == ind[i]);
            } else {
                assert(r[i] == ' ');
                assert((' ' as u32) == 0x20);
            }
        }
    }
    assert forall|i: int| 0 <= i < out.len() - 1 implies ended_full(
        #[trigger] out[i],
        out[i + 1],
        fill,
    ) by {
        assert(ended_full(g[i], g[i + 1], target));
        let pre = list_prefix(ind, bullet, i);
        let pre2 = list_prefix(ind, bullet, i + 1);
        assert(out[i] == pre + g[i]);
        assert(out[i + 1] == pre2 + g[i + 1]);
        lemma_ws_prefix(pre2, g[i + 1]);
        lemma_str_w_concat(pre, g[i]);
    }
}


/// A heading or drawer end: a heading, or a line whose trimmed text ends
/// with `:END:`.
pub proof fn law_heading_or_drawer_end_rule(line: Seq<char>)
    ensures
        heading_or_drawer_end(line) == (heading_line(line) || ({
            let x = trim(line);
            x.len() >= 5 && x[x.len() - 5] == ':' && x[x.len() - 4] == 'E' && x[x.len() - 3] == 'N'
                && x[x.len() - 2] == 'D' && x[x.len() - 1] == ':'
        })),
{
    let x = trim(line);
    if x.len() >= 5 {
        let e = seq![':', 'E', 'N', 'D', ':'];
        if x[x.len() - 5] == ':' && x[x.len() - 4] == 'E' && x[x.len() - 3] == 'N' && x[x.len() - 2]
            == 'D' && x[x.len() - 1] == ':' {
            assert(x.skip(x.len() - 5) =~= e);
        }
        if x.skip(x.len() - 5) == e {
            assert(x[x.len() - 5] == x.skip(x.len() - 5)[0]);
            assert(x[x.len() - 4] == x.skip(x.len() - 5)[1]);
            assert(x[x.len() - 3] == x.skip(x.len() - 5)[2]);
            assert(x[x.len() - 2] == x.skip(x.len() - 5)[3]);
            assert(x[x.len() - 1] == x.skip(x.len() - 5)[4]);
        }
    }
}

/// A heading's level is its number of stars, for a line that starts with
/// `k >= 1` stars followed by a space or the end of the line.
pub proof fn law_heading_level_value(line: Seq<char>, k: int)
    requires
        1 <= k <= line.len(),
        forall|i: int| 0 <= i < k ==> #[trigger] line[i] == '*',
        k == line.len() || line[k] == ' ',
    ensures
        heading_level(line) == Some(k as nat),
{
    assert forall|i: int| 0 <= i < k implies #[trigger] star_pred()(line[i]) by {
        assert(line[i] == '*');
    }
    lemma_span_unique(line, star_pred(), k);
}

/// A line without a newline is a document of one line, kept whole (a final
/// carriage return included); a newline ends a line, dropping one carriage
/// return before it.
pub proof fn law_lines_split(x: Seq<char>, rest: Seq<char>)
    requires
        forall|i: int| 0 <= i < x.len() ==> #[trigger] x[i] != '\n',
    ensures
        x.len() > 0 ==> lines(x) == seq![x],
        lines(x + seq!['\n'] + rest) == seq![
            if x.len() > 0 && x.last() == '\r' {
                x.drop_last()
            } else {
                x
            },
        ] + lines(rest),
{
    assert forall|i: int| 0 <= i < x.len() implies #[trigger] not_newline_pred()(x[i]) by {}
    lemma_span_all(x, not_newline_pred());
    let y = seq!['\n'] + rest;
    assert(y[0] == '\n');
    assert(span_len(y, not_newline_pred()) == 0);
    lemma_span_concat(x, y, not_newline_pred());
    let s = x + seq!['\n'] + rest;
    assert(s =~= x + y);
    assert(s.take(x.len() as int) =~= x);
    assert(s.skip(x.len() + 1int) =~= rest);
}

/// Splitting a list item: what follows the indentation and the bullet
/// (marker and the whitespace after it) starts with no whitespace, and the
/// text is that rest, trimmed.
pub proof fn law_split_list_content(line: Seq<char>)
    requires
        list_parts(line) is Some,
    ensures
        ({
            let (ind, bullet, content) = list_parts(line).unwrap();
            let k = (ind.len() + bullet.len()) as int;
            &&& k <= line.len()
            &&& (k < line.len() ==> !is_ws(line[k]))
            &&& content == trim(line.skip(k))
        }),
{
    let t = trim_start(line);
    let ind = leading_ws(line);
    lemma_leading_ws(line);
    let d = span_len(t, digit_pred()) as int;
    let m: int = if is_bullet(t[0]) {
        1
    } else if is_ascii_digit(t[0]) {
        d + 1
    } else {
        2
    };
    let p = list_parts(line).unwrap();
    assert(p == parts_after(ind, t, m));
    let r = t.skip(m);
    let sp = span_len(r, ws_pred()) as int;
    lemma_span(r, ws_pred());
    assert(line =~= ind + t);
    assert(p.1 =~= t.take(m) + r.take(sp));
    let k = (ind.len() + p.1.len()) as int;
    assert(line.skip(k) =~= r.skip(sp));
    if k < line.len() {
        assert(line[k] == r[sp]);
    }
}

/// Blank lines before a document change nothing.
pub proof fn law_leading_blank_line_ignored(b: Seq<char>, x: Seq<char>, o: FormatOptions)
    requires
        blank(b),
        forall|i: int| 0 <= i < b.len() ==> #[trigger] b[i] != '\n',
    ensures
        formatted_org(b + seq!['\n'] + x, o) == formatted_org(x, o),
{
    law_lines_split(b, x);
    let lb = if b.len() > 0 && b.last() == '\r' {
        b.drop_last()
    } else {
        b
    };
    assert(blank(lb)) by {
        if b.len() > 0 && b.last() == '\r' {
            assert(all_ws(trim_end(b))) by {
                lemma_ws_suffix(b);
                lemma_leading_ws(trim_end(b));
                assert(trim_start(trim_end(b)).len() == 0);
                assert forall|i: int| 0 <= i < trim_end(b).len() implies is_ws(
                    #[trigger] trim_end(b)[i],
                ) by {
                    assert(trim_end(b)[i] == leading_ws(trim_end(b))[i]);
                }
            }
            lemma_ws_suffix(b);
            assert forall|i: int| 0 <= i < b.len() implies is_ws(#[trigger] b[i]) by {
                if i < b.len() - ws_suffix_len(b) {
                    assert(b[i] == trim_end(b)[i]);
                }
            }
            assert(all_ws(lb)) by {
                assert forall|i: int| 0 <= i < lb.len() implies is_ws(#[trigger] lb[i]) by {
                    assert(lb[i] == b[i]);
                }
            }
            lemma_blank_all_ws(lb);
        }
    }
    let ls = lines(b + seq!['\n'] + x);
    assert(ls == seq![lb] + lines(x));
    assert(ls[0] == lb);
    assert(ls.drop_first() =~= lines(x));
    assert(leading_blank(ls) == 1 + leading_blank(lines(x)));
    lemma_leading_blank_bound(lines(x));
    assert(ls.skip(leading_blank(ls) as int) =~= lines(x).skip(leading_blank(lines(x)) as int));
}

proof fn lemma_leading_blank_bound(ls: Seq<Seq<char>>)
    ensures
        leading_blank(ls) <= ls.len(),
    decreases ls.len(),
{
    if ls.len() > 0 && blank(ls[0]) {
        lemma_leading_blank_bound(ls.drop_first());
    }
}

proof fn lemma_blank_all_ws(s: Seq<char>)
    requires
        all_ws(s),
    ensures
        blank(s),
{
    lemma_span_all(s, ws_pred());
    assert forall|i: int| 0 <= i < s.len() implies #[trigger] ws_pred()(s[i]) by {}
    lemma_span_all(s, ws_pred());
    lemma_ws_suffix(s);
    let y = trim_end(s);
    assert forall|i: int| 0 <= i < y.len() implies #[trigger] ws_pred()(y[i]) by {
        assert(y[i] == s[i]);
    }
    lemma_span_all(y, ws_pred());
}


/// With paragraph wrapping on, a plain paragraph line waits to be refilled
/// with the lines around it: nothing is written, and right after a heading
/// the empty lines owed become `heading_to_body_spacing`.
pub proof fn law_paragraph_line_held(a: Acc, raw: Seq<char>, c: Cases, o: FormatOptions)
    requires
        a.mode is Normal,
        trim(raw).len() > 0,
        !has_prefix(c.upper_trimmed, begin_prefix()),
        !drawer_open(c.upper_trimmed),
        !heading_line(raw),
        !list_item(trim_end(raw)),
        o.wrap_paragraphs,
        regular_paragraph_line(raw, c.upper_trimmed_start),
    ensures
        step(a, raw, c, o) == (Acc {
            mode: a.mode,
            out: a.out,
            pending: if a.para.len() == 0 && last_is_header(a.out) {
                o.heading_to_body_spacing as nat
            } else {
                a.pending
            },
            first: a.first,
            para: a.para.push(trim_end(raw)),
        }),
{
}

proof fn lemma_first_word_of(w: Seq<char>, z: Seq<char>)
    requires
        w.len() > 0,
        no_ws(w),
        z.len() == 0 || is_ws(z[0]),
    ensures
        first_word(w + z) == w,
        words(w + z).len() > 0,
{
    lemma_words_single(w);
    if z.len() == 0 {
        assert(w + z =~= w);
    } else {
        assert(w + z =~= w + seq![z[0]] + z.skip(1));
        lemma_words_split(w, z[0], z.skip(1));
    }
}

proof fn lemma_trim_ws_then(s1: Seq<char>, core: Seq<char>)
    requires
        all_ws(s1),
        is_trimmed(core),
    ensures
        trim(s1 + core) == core,
{
    lemma_trim_trimmed(core);
    if core.len() > 0 {
        assert((s1 + core).last() == core.last());
        lemma_trim_end_noop(s1 + core);
    } else {
        assert(s1 + core =~= s1);
        assert(all_ws(s1 + core));
        lemma_blank_all_ws(s1);
        assert(core =~= Seq::<char>::empty());
    }
    lemma_ws_prefix(s1, core);
}

/// A block's opening line, for a line with no trailing whitespace laid out
/// as indentation `ind`, keyword `fw`, and optionally whitespace `s1`, block
/// type `bt` and whitespace `s2` then further text `r`: an indented opening
/// line keeps only the upper-cased keyword after its indentation; otherwise
/// the keyword is upper-cased, the block type lower-cased, and single spaces
/// separate them and the further text.
#[verifier::rlimit(80)]
#[verifier::spinoff_prover]
pub proof fn law_block_open_line(
    ind: Seq<char>,
    fw: Seq<char>,
    s1: Seq<char>,
    bt: Seq<char>,
    s2: Seq<char>,
    r: Seq<char>,
    c: Cases,
)
    requires
        all_ws(ind),
        fw.len() > 0,
        no_ws(fw),
        all_ws(s1),
        all_ws(s2),
        no_ws(bt),
        bt.len() == 0 ==> s1.len() == 0 && s2.len() == 0 && r.len() == 0,
        bt.len() > 0 ==> s1.len() > 0,
        r.len() > 0 ==> s2.len() > 0 && is_trimmed(r),
        r.len() == 0 ==> s2.len() == 0,
    ensures
        ({
            let raw = ind + fw + s1 + bt + s2 + r;
            &&& ind.len() > 0 ==> block_open_line(raw, c) == ind + c.upper_first_word
            &&& (ind.len() == 0 && bt.len() == 0) ==> block_open_line(raw, c) == c.upper_first_word
            &&& (ind.len() == 0 && bt.len() > 0) ==> block_open_line(raw, c) == c.upper_first_word
                + seq![' '] + c.lower_block_type + one_space_then(r)
        }),
{
    let raw = ind + fw + s1 + bt + s2 + r;
    let tail = s1 + bt + s2 + r;
    assert(raw =~= ind + (fw + tail));
    assert(raw.len() > 0);
    // raw has no trailing whitespace
    if r.len() > 0 {
        assert(raw.last() == r.last());
    } else {
        if bt.len() > 0 {
            assert(raw.last() == bt.last());
        } else {
            assert(raw =~= ind + fw);
            assert(raw.last() == fw.last());
        }
    }
    lemma_trim_end_noop(raw);
    assert(trim_end(raw) == raw);
    // the indentation and the first word
    lemma_ws_prefix(ind, fw + tail);
    assert(tail.len() == 0 || is_ws(tail[0])) by {
        if tail.len() > 0 {
            if s1.len() > 0 {
                assert(tail[0] == s1[0]);
            } else {
                assert(bt.len() == 0);
                assert(tail =~= Seq::<char>::empty());
            }
        }
    }
    lemma_first_word_of(fw, tail);
    assert(first_word(raw) == fw);
    lemma_trim_start_noop(fw + tail);
    assert(leading_ws(raw) == ind + leading_ws(fw + tail));
    assert(leading_ws(raw) =~= ind);
    if ind.len() > 0 {
        assert(!is_ws(fw[0]));
        assert(raw[0] == ind[0]);
        assert(!has_prefix(raw, fw));
        assert(crate::format::type_rest(raw) =~= Seq::<char>::empty());
    } else {
        assert(raw =~= fw + tail);
        assert(raw.take(fw.len() as int) =~= fw);
        assert(raw.skip(fw.len() as int) =~= tail);
        let core = bt + s2 + r;
        assert(tail =~= s1 + core);
        assert(is_trimmed(core)) by {
            if core.len() > 0 {
                assert(bt.len() > 0);
                assert(core[0] == bt[0]);
                if r.len() > 0 {
                    assert(core.last() == r.last());
                } else {
                    assert(core =~= bt);
                }
            }
        }
        lemma_trim_ws_then(s1, core);
        let trest = crate::format::type_rest(raw);
        assert(trest == core);
        if bt.len() > 0 {
            let z = s2 + r;
            assert(core =~= bt + z);
            assert(z.len() == 0 || is_ws(z[0])) by {
                if z.len() > 0 {
                    assert(z[0] == s2[0]);
                }
            }
            lemma_first_word_of(bt, z);
            assert(core.take(bt.len() as int) =~= bt);
            assert(core.skip(bt.len() as int) =~= z);
            if r.len() > 0 {
                lemma_trim_ws_then(s2, r);
                assert(trim(r) == r) by {
                    lemma_trim_trimmed(r);
                }
            } else {
                assert(z =~= Seq::<char>::empty());
                lemma_trim_ws_then(z, Seq::<char>::empty());
                assert(trim(r) =~= Seq::<char>::empty()) by {
                    assert(r =~= Seq::<char>::empty());
                    lemma_trim_ws_then(Seq::<char>::empty(), Seq::<char>::empty());
                    assert(Seq::<char>::empty() + Seq::<char>::empty() =~= Seq::<char>::empty());
                }
            }
        } else {
            assert(core =~= Seq::<char>::empty());
        }
    }
}

} // verus!
