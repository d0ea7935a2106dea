//! The document formatter: a state machine over the lines of an Org
//! document that normalises spacing, headings, lists, drawers and blocks.
use vstd::prelude::*;
use crate::case::{lower_case, upper_case};
use crate::classify::{
    begin_prefix, drawer_end_tag, end_prefix, heading_level, heading_line, heading_or_drawer_end,
    list_item, regular_paragraph_line,
};
use crate::list::{formatted_list_line, wrapped_list_line};
use crate::text::{
    first_word, has_prefix, leading_ws, lines, not_colon_pred, repeat_char, span_len, trim,
    trim_end, trim_start, words,
};
use crate::wrap::wrapped_paragraph;

verus! {

/// Formatting choices.
#[derive(Debug, Clone, Copy)]
pub struct FormatOptions {
    /// Empty lines between a heading (or a drawer's end) and the body text.
    pub heading_to_body_spacing: usize,
    /// Empty lines between a heading and the heading that follows it.
    pub heading_to_heading_spacing: usize,
    /// Refill runs of plain paragraph lines.
    pub wrap_paragraphs: bool,
    /// Refill long list items.
    pub wrap_lists: bool,
    /// The column that wrapped lines stay within.
    pub fill_column: usize,
}

impl Default for FormatOptions {
    fn default() -> (r: Self)
        ensures
            r.heading_to_body_spacing == 1,
            r.heading_to_heading_spacing == 1,
            !r.wrap_paragraphs,
            !r.wrap_lists,
            r.fill_column == 80,
    {
        FormatOptions {
            heading_to_body_spacing: 1,
            heading_to_heading_spacing: 1,
            wrap_paragraphs: false,
            wrap_lists: false,
            fill_column: 80,
        }
    }
}

/// Where the formatter is: in ordinary text, inside a block (until the line
/// that starts with the closing tag), or inside a drawer (with the
/// indentation its lines get).
pub enum Mode {
    Normal,
    InBlock(Seq<char>),
    InDrawer(Seq<char>),
}

/// The formatter's state between two lines: the mode, the lines written so
/// far, the empty lines owed before the next output, whether nothing has
/// been written yet, and the paragraph lines waiting to be refilled.
pub struct Acc {
    pub mode: Mode,
    pub out: Seq<Seq<char>>,
    pub pending: nat,
    pub first: bool,
    pub para: Seq<Seq<char>>,
}

/// The case-converted pieces of one line that formatting reads: its trimmed
/// text upper-cased, its text after the indentation upper-cased, its first
/// word upper-cased, and the word after that (a block's type) lower-cased.
pub struct Cases {
    pub upper_trimmed: Seq<char>,
    pub upper_trimmed_start: Seq<char>,
    pub upper_first_word: Seq<char>,
    pub lower_block_type: Seq<char>,
}

/// `n` empty lines.
pub open spec fn blanks(n: nat) -> Seq<Seq<char>> {
    Seq::new(n, |i: int| Seq::<char>::empty())
}

/// The last line written is a heading or a drawer's end.
pub open spec fn last_is_header(out: Seq<Seq<char>>) -> bool {
    out.len() > 0 && heading_or_drawer_end(out.last())
}

/// What follows the first word of a line (after trailing whitespace is cut),
/// trimmed; empty when the line does not start with its first word.
pub open spec fn type_rest(raw: Seq<char>) -> Seq<char> {
    let tr = trim_end(raw);
    let fw = first_word(tr);
    if has_prefix(tr, fw) {
        trim(tr.skip(fw.len() as int))
    } else {
        seq![]
    }
}

/// The case conversions that formatting `raw` needs.
pub open spec fn cases_of(raw: Seq<char>) -> Cases {
    Cases {
        upper_trimmed: upper_case(trim(raw)),
        upper_trimmed_start: upper_case(trim_start(raw)),
        upper_first_word: upper_case(first_word(trim_end(raw))),
        lower_block_type: lower_case(first_word(type_rest(raw))),
    }
}

/// Writes the paragraph waiting to be refilled, after the empty lines owed.
pub open spec fn flushed(a: Acc, fill: int) -> Acc {
    if a.para.len() == 0 {
        a
    } else {
        Acc {
            mode: a.mode,
            out: (if a.first {
                a.out
            } else {
                a.out + blanks(a.pending)
            }) + wrapped_paragraph(a.para, fill),
            pending: 0,
            first: false,
            para: seq![],
        }
    }
}

/// Before body text: after a heading or drawer end the owed empty lines are
/// `hb`; they are written unless nothing has been written yet.
pub open spec fn body_gap(a: Acc, hb: nat) -> Acc {
    let p = if last_is_header(a.out) {
        hb
    } else {
        a.pending
    };
    Acc {
        mode: a.mode,
        out: if a.first {
            a.out
        } else {
            a.out + blanks(p)
        },
        pending: 0,
        first: a.first,
        para: a.para,
    }
}

/// Writes `ls` and records that something has been written.
pub open spec fn emit(a: Acc, ls: Seq<Seq<char>>) -> Acc {
    Acc { mode: a.mode, out: a.out + ls, pending: a.pending, first: false, para: a.para }
}

/// The tag that closes a block opened by a line whose trimmed text,
/// upper-cased, is `u`: `#+END_` and what follows `#+BEGIN_` in its first
/// word.
pub open spec fn closing_tag(u: Seq<char>) -> Seq<char> {
    let fwu = first_word(u);
    let kw = if has_prefix(fwu, begin_prefix()) {
        fwu.skip(8)
    } else {
        seq![]
    };
    end_prefix() + kw
}

/// A block's opening line: the keyword upper-cased, the block type
/// lower-cased, the rest as written.
pub open spec fn block_open_line(raw: Seq<char>, c: Cases) -> Seq<char> {
    let ind = leading_ws(raw);
    let trest = type_rest(raw);
    let ufw = c.upper_first_word;
    if trest.len() == 0 {
        ind + ufw
    } else if words(trest).len() == 0 {
        ind + ufw + seq![' '] + trest
    } else {
        let bt = first_word(trest);
        let rest = if has_prefix(trest, bt) {
            trim(trest.skip(bt.len() as int))
        } else {
            seq![]
        };
        if rest.len() == 0 {
            ind + ufw + seq![' '] + c.lower_block_type
        } else {
            ind + ufw + seq![' '] + c.lower_block_type + seq![' '] + rest
        }
    }
}

/// An upper-cased trimmed line that opens a drawer: it starts and ends with
/// `:` and is not `:END:`.
pub open spec fn drawer_open(u: Seq<char>) -> bool {
    u.len() > 0 && u[0] == ':' && u.last() == ':' && u != drawer_end_tag()
}

/// A line inside a drawer, re-indented: a property `:NAME:` gets exactly one
/// space before its value.
pub open spec fn drawer_line(ind: Seq<char>, inner: Seq<char>) -> Seq<char> {
    if inner.len() > 0 && inner[0] == ':' {
        let j = span_len(inner.skip(1), not_colon_pred()) as int;
        if j < inner.len() - 1 {
            let name = inner.take(j + 2);
            let value = trim(inner.skip(j + 2));
            if value.len() == 0 {
                ind + name
            } else {
                ind + name + seq![' '] + value
            }
        } else {
            ind + inner
        }
    } else {
        ind + inner
    }
}

/// A line inside a block: the closing line is written with the tag alone,
/// any other line as it is, trailing whitespace cut.
pub open spec fn block_step(a: Acc, raw: Seq<char>, tag: Seq<char>, c: Cases) -> Acc {
    if has_prefix(c.upper_trimmed, tag) {
        Acc {
            mode: Mode::Normal,
            out: a.out.push(leading_ws(raw) + tag),
            pending: 1,
            first: a.first,
            para: a.para,
        }
    } else {
        Acc { mode: a.mode, out: a.out.push(trim_end(raw)), pending: a.pending, first: a.first, para: a.para }
    }
}

/// A line inside a drawer: `:END:` closes it, empty lines vanish, other
/// lines get the drawer's indentation.
pub open spec fn drawer_step(a: Acc, raw: Seq<char>, ind: Seq<char>, c: Cases, hb: nat) -> Acc {
    if c.upper_trimmed == drawer_end_tag() {
        Acc {
            mode: Mode::Normal,
            out: a.out.push(ind + drawer_end_tag()),
            pending: hb,
            first: a.first,
            para: a.para,
        }
    } else if trim(raw).len() == 0 {
        a
    } else {
        Acc {
            mode: a.mode,
            out: a.out.push(drawer_line(ind, trim(raw))),
            pending: a.pending,
            first: a.first,
            para: a.para,
        }
    }
}

/// An empty line in ordinary text: the waiting paragraph is written and one
/// empty line is owed.
pub open spec fn blank_step(a: Acc, fill: int) -> Acc {
    let f = flushed(a, fill);
    Acc { mode: f.mode, out: f.out, pending: 1, first: f.first, para: f.para }
}

/// A line that opens a block.
pub open spec fn begin_step(a: Acc, raw: Seq<char>, c: Cases, hb: nat, fill: int) -> Acc {
    let g = body_gap(flushed(a, fill), hb);
    Acc {
        mode: Mode::InBlock(closing_tag(c.upper_trimmed)),
        out: g.out.push(block_open_line(raw, c)),
        pending: g.pending,
        first: false,
        para: g.para,
    }
}

/// The indentation of a drawer: under a heading, an indented drawer is
/// aligned one column past the heading's stars.
pub open spec fn drawer_indent(out: Seq<Seq<char>>, raw: Seq<char>) -> Seq<char> {
    let ind0 = leading_ws(raw);
    if last_is_header(out) && ind0.len() > 0 && heading_level(out.last()) is Some {
        repeat_char(' ', heading_level(out.last())->0 + 1)
    } else {
        ind0
    }
}

/// A line that opens a drawer: written upper-cased; directly under a heading
/// with no empty line.
pub open spec fn drawer_open_step(a: Acc, raw: Seq<char>, c: Cases, fill: int) -> Acc {
    let f = flushed(a, fill);
    let ind = drawer_indent(f.out, raw);
    let out1 = if last_is_header(f.out) || f.first {
        f.out
    } else {
        f.out + blanks(f.pending)
    };
    let p1 = if !last_is_header(f.out) && f.first {
        f.pending
    } else {
        0
    };
    Acc {
        mode: Mode::InDrawer(ind),
        out: out1.push(ind + c.upper_trimmed),
        pending: p1,
        first: false,
        para: f.para,
    }
}

/// A heading: written without indentation, after `hh` empty lines when it
/// follows a heading or drawer end, one empty line otherwise, none at the
/// start.
pub open spec fn heading_step(a: Acc, raw: Seq<char>, hh: nat, fill: int) -> Acc {
    let f = flushed(a, fill);
    let sp: nat = if last_is_header(f.out) {
        hh
    } else if f.first {
        0
    } else {
        1
    };
    Acc {
        mode: f.mode,
        out: f.out + blanks(sp) + seq![trim(raw)],
        pending: 0,
        first: false,
        para: f.para,
    }
}

/// A list item: normalised, or wrapped when list wrapping is on.
pub open spec fn list_step(a: Acc, raw: Seq<char>, o: FormatOptions) -> Acc {
    let tr = trim_end(raw);
    let g = body_gap(flushed(a, o.fill_column as int), o.heading_to_body_spacing as nat);
    emit(
        g,
        if o.wrap_lists {
            wrapped_list_line(tr, o.fill_column as int)
        } else {
            seq![formatted_list_line(tr)]
        },
    )
}

/// A plain paragraph line while paragraph wrapping is on: it waits to be
/// refilled with the lines around it.
pub open spec fn para_step(a: Acc, raw: Seq<char>, hb: nat) -> Acc {
    let p = if a.para.len() == 0 && last_is_header(a.out) {
        hb
    } else {
        a.pending
    };
    Acc { mode: a.mode, out: a.out, pending: p, first: a.first, para: a.para.push(trim_end(raw)) }
}

/// Any other line: written as it is, trailing whitespace cut.
pub open spec fn text_step(a: Acc, raw: Seq<char>, hb: nat, fill: int) -> Acc {
    let g = body_gap(flushed(a, fill), hb);
    emit(g, seq![trim_end(raw)])
}

/// A line in ordinary text.
pub open spec fn normal_step(a: Acc, raw: Seq<char>, c: Cases, o: FormatOptions) -> Acc {
    let hb = o.heading_to_body_spacing as nat;
    let fill = o.fill_column as int;
    if trim(raw).len() == 0 {
        blank_step(a, fill)
    } else if has_prefix(c.upper_trimmed, begin_prefix()) {
        begin_step(a, raw, c, hb, fill)
    } else if drawer_open(c.upper_trimmed) {
        drawer_open_step(a, raw, c, fill)
    } else if heading_line(raw) {
        heading_step(a, raw, o.heading_to_heading_spacing as nat, fill)
    } else if list_item(trim_end(raw)) {
        list_step(a, raw, o)
    } else if o.wrap_paragraphs && regular_paragraph_line(raw, c.upper_trimmed_start) {
        para_step(a, raw, hb)
    } else {
        text_step(a, raw, hb, fill)
    }
}

/// One line of input, with its case conversions.
pub open spec fn step(a: Acc, raw: Seq<char>, c: Cases, o: FormatOptions) -> Acc {
    match a.mode {
        Mode::InBlock(tag) => block_step(a, raw, tag, c),
        Mode::InDrawer(ind) => drawer_step(a, raw, ind, c, o.heading_to_body_spacing as nat),
        Mode::Normal => normal_step(a, raw, c, o),
    }
}

/// The state before the first line.
pub open spec fn initial() -> Acc {
    Acc { mode: Mode::Normal, out: seq![], pending: 0, first: true, para: seq![] }
}

/// The state after the lines `ls`, whose case conversions are `cs`.
pub open spec fn run(ls: Seq<Seq<char>>, cs: Seq<Cases>, o: FormatOptions) -> Acc
    decreases ls.len(),
{
    if ls.len() == 0 || cs.len() == 0 {
        initial()
    } else {
        step(run(ls.drop_last(), cs.drop_last(), o), ls.last(), cs.last(), o)
    }
}

/// Each line followed by a newline.
pub open spec fn lines_text(ls: Seq<Seq<char>>) -> Seq<char>
    decreases ls.len(),
{
    if ls.len() == 0 {
        seq![]
    } else {
        lines_text(ls.drop_last()) + ls.last() + seq!['\n']
    }
}

/// The lines joined by newlines, with a final newline.
pub open spec fn render(out: Seq<Seq<char>>) -> Seq<char> {
    if out.len() == 0 {
        seq!['\n']
    } else {
        lines_text(out)
    }
}

/// The formatted text of the lines `ls`, whose case conversions are `cs`.
pub open spec fn formatted_text(ls: Seq<Seq<char>>, cs: Seq<Cases>, o: FormatOptions) -> Seq<char> {
    render(flushed(run(ls, cs, o), o.fill_column as int).out)
}

/// A line that is empty or all whitespace.
pub open spec fn blank(l: Seq<char>) -> bool {
    trim(l).len() == 0
}

/// The number of blank lines at the start.
pub open spec fn leading_blank(ls: Seq<Seq<char>>) -> nat
    decreases ls.len(),
{
    if ls.len() > 0 && blank(ls[0]) {
        1 + leading_blank(ls.drop_first())
    } else {
        0
    }
}

/// The number of blank lines at the end.
pub open spec fn trailing_blank(ls: Seq<Seq<char>>) -> nat
    decreases ls.len(),
{
    if ls.len() > 0 && blank(ls.last()) {
        1 + trailing_blank(ls.drop_last())
    } else {
        0
    }
}

/// The lines of a document without the blank lines at its start and end.
pub open spec fn content_lines(input: Seq<char>) -> Seq<Seq<char>> {
    let ls = lines(input);
    let a = ls.skip(leading_blank(ls) as int);
    a.take(a.len() - trailing_blank(a))
}

/// The case conversions of each line.
pub open spec fn cases_of_lines(ls: Seq<Seq<char>>) -> Seq<Cases> {
    ls.map_values(|l: Seq<char>| cases_of(l))
}

/// A formatted Org document: empty when the document is blank, otherwise
/// its lines formatted and joined, with a final newline.
pub open spec fn formatted_org(input: Seq<char>, o: FormatOptions) -> Seq<char> {
    let ls = content_lines(input);
    if ls.len() == 0 {
        seq![]
    } else {
        formatted_text(ls, cases_of_lines(ls), o)
    }
}

} // verus!
