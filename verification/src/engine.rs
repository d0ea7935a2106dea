//! The executable formatter state machine, proved to follow `format::step`.
use vstd::prelude::*;

use crate::classify::{
    begin_chars, drawer_end_chars, end_chars, end_prefix, heading_level_chars, heading_line_chars,
    heading_or_drawer_end_chars, list_item_chars, regular_paragraph_line_chars,
};
use crate::format::{
    blanks, block_open_line, block_step, blank_step, begin_step, body_gap, closing_tag,
    drawer_indent, drawer_line, drawer_open, drawer_open_step, drawer_step, emit, flushed,
    heading_step, last_is_header, list_step, normal_step, para_step, step, text_step, type_rest,
    Acc, Cases, FormatOptions, Mode, initial,
};
use crate::list::{format_list_line_chars, wrap_list_line_chars};
use crate::text::{
    chars_eq, copy_range, first_word, first_word_bounds, is_not_colon, leading_ws,
    lemma_seqs_of_add, lemma_seqs_of_push, not_colon_pred, push_all, push_range, repeat_char,
    seqs_of, span, starts_with, trim, trim_bounds, trim_end, trim_start, ws_end, ws_suffix_start,
};
use crate::wrap::wrap_paragraph_chars;

verus! {

/// Where the formatter is: in ordinary text, inside a block (holding the
/// tag that closes it), or inside a drawer (holding its indentation).
pub enum State {
    Normal,
    InBlock(Vec<char>),
    InDrawer { indent: Vec<char> },
}

pub open spec fn mode_of(s: State) -> Mode {
    match s {
        State::Normal => Mode::Normal,
        State::InBlock(t) => Mode::InBlock(t@),
        State::InDrawer { indent } => Mode::InDrawer(indent@),
    }
}

/// The case conversions of one line, as characters.
pub struct CaseChars {
    pub upper_trimmed: Vec<char>,
    pub upper_trimmed_start: Vec<char>,
    pub upper_first_word: Vec<char>,
    pub lower_block_type: Vec<char>,
}

pub open spec fn cases_view(c: CaseChars) -> Cases {
    Cases {
        upper_trimmed: c.upper_trimmed@,
        upper_trimmed_start: c.upper_trimmed_start@,
        upper_first_word: c.upper_first_word@,
        lower_block_type: c.lower_block_type@,
    }
}

/// The formatter between two lines.
pub struct Engine {
    pub state: State,
    pub out: Vec<Vec<char>>,
    pub pending: usize,
    pub first: bool,
    pub para: Vec<Vec<char>>,
}

pub open spec fn acc_of(e: Engine) -> Acc {
    Acc {
        mode: mode_of(e.state),
        out: seqs_of(e.out@),
        pending: e.pending as nat,
        first: e.first,
        para: seqs_of(e.para@),
    }
}

/// Appends `n` empty lines.
fn push_blanks(out: &mut Vec<Vec<char>>, n: usize)
    ensures
        seqs_of(final(out)@) == seqs_of(old(out)@) + blanks(n as nat),
{
    let mut i: usize = 0;
    while i < n
        invariant
            i <= n,
            seqs_of(out@) == seqs_of(old(out)@) + blanks(i as nat),
        decreases n - i,
    {
        let ghost before = out@;
        let e: Vec<char> = Vec::new();
        out.push(e);
        proof {
            lemma_seqs_of_push(before, e);
            assert(seqs_of(out@) =~= seqs_of(old(out)@) + blanks((i + 1) as nat));
        }
        i = i + 1;
    }
}

fn last_header(out: &Vec<Vec<char>>) -> (b: bool)
    ensures
        b == last_is_header(seqs_of(out@)),
{
    if out.len() == 0 {
        false
    } else {
        heading_or_drawer_end_chars(out[out.len() - 1].as_slice())
    }
}

impl Engine {
    pub fn new() -> (e: Engine)
        ensures
            acc_of(e) == initial(),
    {
        let e = Engine {
            state: State::Normal,
            out: Vec::new(),
            pending: 0,
            first: true,
            para: Vec::new(),
        };
        assert(seqs_of(e.out@) =~= Seq::<Seq<char>>::empty());
        assert(seqs_of(e.para@) =~= Seq::<Seq<char>>::empty());
        e
    }

    pub(crate) fn flush(&mut self, fill: usize)
        ensures
            acc_of(*final(self)) == flushed(acc_of(*old(self)), fill as int),
    {
        if self.para.len() == 0 {
            assert(seqs_of(self.para@) =~= Seq::<Seq<char>>::empty());
            return;
        }
        if !self.first {
            push_blanks(&mut self.out, self.pending);
        }
        self.pending = 0;
        let mut w = wrap_paragraph_chars(&self.para, fill);
        let ghost before = self.out@;
        let ghost wv = w@;
        self.out.append(&mut w);
        proof {
            lemma_seqs_of_add(before, wv);
        }
        self.para = Vec::new();
        self.first = false;
        assert(seqs_of(self.para@) =~= Seq::<Seq<char>>::empty());
    }

    fn body_gap(&mut self, hb: usize)
        ensures
            acc_of(*final(self)) == body_gap(acc_of(*old(self)), hb as nat),
    {
        if last_header(&self.out) {
            self.pending = hb;
        }
        if !self.first {
            push_blanks(&mut self.out, self.pending);
        }
        self.pending = 0;
    }

    fn emit_line(&mut self, l: Vec<char>)
        ensures
            acc_of(*final(self)) == emit(acc_of(*old(self)), seq![l@]),
    {
        let ghost before = self.out@;
        self.out.push(l);
        proof {
            lemma_seqs_of_push(before, l);
            assert(seqs_of(before).push(l@) =~= seqs_of(before) + seq![l@]);
        }
        self.first = false;
    }
}


/// A copy of `v`.
fn copy_vec(v: &Vec<char>) -> (r: Vec<char>)
    ensures
        r@ == v@,
{
    assert(v@.subrange(0, v@.len() as int) =~= v@);
    copy_range(v.as_slice(), 0, v.len())
}

/// The characters of `raw` before its trailing whitespace.
pub(crate) fn trim_end_copy(raw: &[char]) -> (r: Vec<char>)
    ensures
        r@ == trim_end(raw@),
{
    let n = raw.len();
    let te = ws_suffix_start(raw, 0, n);
    assert(raw@.subrange(0, n as int) =~= raw@);
    assert(trim_end(raw@) =~= raw@.subrange(0, te as int));
    copy_range(raw, 0, te)
}

/// End of the leading whitespace of `raw`.
pub(crate) fn indent_end(raw: &[char]) -> (a: usize)
    ensures
        a <= raw@.len(),
        raw@.subrange(0, a as int) == leading_ws(raw@),
        raw@.subrange(a as int, raw@.len() as int) == trim_start(raw@),
{
    let n = raw.len();
    assert(raw@.subrange(0, n as int) =~= raw@);
    ws_end(raw, 0, n)
}

/// A line inside a drawer, re-indented.
fn drawer_line_exec(ind: &[char], raw: &[char]) -> (r: Vec<char>)
    ensures
        r@ == drawer_line(ind@, trim(raw@)),
{
    let n = raw.len();
    assert(raw@.subrange(0, n as int) =~= raw@);
    let (b, e) = trim_bounds(raw, 0, n);
    let ghost inner = trim(raw@);
    let mut r: Vec<char> = Vec::new();
    push_all(&mut r, ind);
    if b < e && raw[b] == ':' {
        let j = span(raw, b + 1, e, is_not_colon, Ghost(not_colon_pred()));
        proof {
            assert(inner[0] == raw@[b as int]);
            assert(inner.skip(1) =~= raw@.subrange(b + 1, e as int));
        }
        if j < e {
            push_range(&mut r, raw, b, j + 1);
            let (vb, ve) = trim_bounds(raw, j + 1, e);
            proof {
                assert(inner.take(j - b + 1) =~= raw@.subrange(b as int, j + 1));
                assert(inner.skip(j - b + 1) =~= raw@.subrange(j + 1, e as int));
            }
            if vb < ve {
                r.push(' ');
                push_range(&mut r, raw, vb, ve);
            }
        } else {
            push_range(&mut r, raw, b, e);
        }
    } else {
        push_range(&mut r, raw, b, e);
    }
    r
}

/// Bounds of `type_rest(raw)`.
pub(crate) fn type_rest_bounds(raw: &[char]) -> (r: (usize, usize))
    ensures
        r.0 <= r.1 <= raw@.len(),
        raw@.subrange(r.0 as int, r.1 as int) == type_rest(raw@),
{
    let n = raw.len();
    let te = ws_suffix_start(raw, 0, n);
    assert(raw@.subrange(0, n as int) =~= raw@);
    let ghost tr = trim_end(raw@);
    assert(tr =~= raw@.subrange(0, te as int));
    let (a, b) = match first_word_bounds(raw, 0, te) {
        Some(p) => p,
        None => (0, 0),
    };
    assert(first_word(tr) =~= raw@.subrange(a as int, b as int));
    let trs = vstd::slice::slice_subrange(raw, 0, te);
    let fws = vstd::slice::slice_subrange(raw, a, b);
    if starts_with(trs, fws) {
        let (x, y) = trim_bounds(raw, b - a, te);
        assert(tr.skip((b - a) as int) =~= raw@.subrange((b - a) as int, te as int));
        (x, y)
    } else {
        assert(type_rest(raw@) =~= raw@.subrange(0, 0));
        (0, 0)
    }
}

/// A block's opening line.
fn block_open_line_exec(raw: &[char], c: &CaseChars) -> (r: Vec<char>)
    ensures
        r@ == block_open_line(raw@, cases_view(*c)),
{
    let a = indent_end(raw);
    let (x, y) = type_rest_bounds(raw);
    let ghost trest = type_rest(raw@);
    let mut r = copy_range(raw, 0, a);
    push_all(&mut r, c.upper_first_word.as_slice());
    if x == y {
        return r;
    }
    match first_word_bounds(raw, x, y) {
        None => {
            r.push(' ');
            push_range(&mut r, raw, x, y);
            r
        },
        Some((p, q)) => {
            let ts = vstd::slice::slice_subrange(raw, x, y);
            let bs = vstd::slice::slice_subrange(raw, p, q);
            let (rs, re) = if starts_with(ts, bs) {
                let (u, v) = trim_bounds(raw, x + (q - p), y);
                assert(trest.skip((q - p) as int) =~= raw@.subrange(x + (q - p), y as int));
                (u, v)
            } else {
                (0, 0)
            };
            r.push(' ');
            push_all(&mut r, c.lower_block_type.as_slice());
            if rs < re {
                r.push(' ');
                push_range(&mut r, raw, rs, re);
            }
            r
        },
    }
}

/// The tag that closes a block opened by a line whose upper-cased trimmed
/// text is `u`.
fn closing_tag_exec(u: &[char]) -> (r: Vec<char>)
    ensures
        r@ == closing_tag(u@),
{
    let n = u.len();
    assert(u@.subrange(0, n as int) =~= u@);
    let ep = end_chars();
    let mut r: Vec<char> = Vec::new();
    push_all(&mut r, ep.as_slice());
    match first_word_bounds(u, 0, n) {
        None => {
            assert(closing_tag(u@) =~= end_prefix());
            r
        },
        Some((a, b)) => {
            let bp = begin_chars();
            let fw = vstd::slice::slice_subrange(u, a, b);
            if starts_with(fw, bp.as_slice()) {
                push_range(&mut r, u, a + 8, b);
                assert(fw@.skip(8) =~= u@.subrange(a + 8, b as int));
            } else {
                assert(closing_tag(u@) =~= end_prefix() + Seq::<char>::empty());
                assert(r@ =~= end_prefix() + Seq::<char>::empty());
            }
            r
        },
    }
}

/// Whether an upper-cased trimmed line opens a drawer.
fn drawer_open_exec(u: &[char]) -> (b: bool)
    ensures
        b == drawer_open(u@),
{
    let n = u.len();
    if n == 0 || u[0] != ':' || u[n - 1] != ':' {
        return false;
    }
    let tag = drawer_end_chars();
    !chars_eq(u, tag.as_slice())
}

/// The indentation a drawer opened by `raw` gets.
fn drawer_indent_exec(out: &Vec<Vec<char>>, raw: &[char]) -> (r: Vec<char>)
    ensures
        r@ == drawer_indent(seqs_of(out@), raw@),
{
    let a = indent_end(raw);
    if last_header(out) && a > 0 {
        let last = out[out.len() - 1].as_slice();
        assert(seqs_of(out@).last() == last@);
        match heading_level_chars(last) {
            Some(level) => {
                let mut r: Vec<char> = Vec::new();
                let mut i: usize = 0;
                while i < level
                    invariant
                        i <= level,
                        r@ == repeat_char(' ', i as nat),
                    decreases level - i,
                {
                    r.push(' ');
                    i = i + 1;
                    assert(r@ =~= repeat_char(' ', i as nat));
                }
                r.push(' ');
                assert(r@ =~= repeat_char(' ', (level + 1) as nat));
                return r;
            },
            None => {},
        }
    }
    copy_range(raw, 0, a)
}


impl Engine {
    fn push_out(&mut self, l: Vec<char>)
        ensures
            final(self).state == old(self).state,
            final(self).pending == old(self).pending,
            final(self).first == old(self).first,
            final(self).para == old(self).para,
            seqs_of(final(self).out@) == seqs_of(old(self).out@).push(l@),
    {
        let ghost before = self.out@;
        self.out.push(l);
        proof {
            lemma_seqs_of_push(before, l);
        }
    }

    fn block_line(&mut self, raw: &[char], tag: Vec<char>, c: &CaseChars)
        requires
            mode_of(old(self).state) == Mode::InBlock(tag@),
        ensures
            acc_of(*final(self)) == block_step(acc_of(*old(self)), raw@, tag@, cases_view(*c)),
    {
        if starts_with(c.upper_trimmed.as_slice(), tag.as_slice()) {
            let a = indent_end(raw);
            let mut l = copy_range(raw, 0, a);
            push_all(&mut l, tag.as_slice());
            self.push_out(l);
            self.state = State::Normal;
            self.pending = 1;
        } else {
            let l = trim_end_copy(raw);
            self.push_out(l);
        }
    }

    fn drawer_body(&mut self, raw: &[char], ind: Vec<char>, c: &CaseChars, hb: usize)
        requires
            mode_of(old(self).state) == Mode::InDrawer(ind@),
        ensures
            acc_of(*final(self)) == drawer_step(
                acc_of(*old(self)),
                raw@,
                ind@,
                cases_view(*c),
                hb as nat,
            ),
    {
        let tag = drawer_end_chars();
        if chars_eq(c.upper_trimmed.as_slice(), tag.as_slice()) {
            let mut l: Vec<char> = Vec::new();
            push_all(&mut l, ind.as_slice());
            push_all(&mut l, tag.as_slice());
            self.push_out(l);
            self.state = State::Normal;
            self.pending = hb;
            return;
        }
        let n = raw.len();
        assert(raw@.subrange(0, n as int) =~= raw@);
        let (b, e) = trim_bounds(raw, 0, n);
        if b == e {
            return;
        }
        let l = drawer_line_exec(ind.as_slice(), raw);
        self.push_out(l);
    }

    fn blank_line(&mut self, fill: usize)
        ensures
            acc_of(*final(self)) == blank_step(acc_of(*old(self)), fill as int),
    {
        self.flush(fill);
        self.pending = 1;
    }

    fn begin_line(&mut self, raw: &[char], c: &CaseChars, hb: usize, fill: usize)
        ensures
            acc_of(*final(self)) == begin_step(
                acc_of(*old(self)),
                raw@,
                cases_view(*c),
                hb as nat,
                fill as int,
            ),
    {
        self.flush(fill);
        self.body_gap(hb);
        let l = block_open_line_exec(raw, c);
        self.push_out(l);
        let tag = closing_tag_exec(c.upper_trimmed.as_slice());
        self.state = State::InBlock(tag);
        self.first = false;
    }

    fn drawer_open_line(&mut self, raw: &[char], c: &CaseChars, fill: usize)
        ensures
            acc_of(*final(self)) == drawer_open_step(
                acc_of(*old(self)),
                raw@,
                cases_view(*c),
                fill as int,
            ),
    {
        self.flush(fill);
        let lh = last_header(&self.out);
        let ind = drawer_indent_exec(&self.out, raw);
        if lh {
            self.pending = 0;
        } else if !self.first {
            push_blanks(&mut self.out, self.pending);
            self.pending = 0;
        }
        let mut l: Vec<char> = Vec::new();
        push_all(&mut l, ind.as_slice());
        push_all(&mut l, c.upper_trimmed.as_slice());
        self.push_out(l);
        self.state = State::InDrawer { indent: ind };
        self.first = false;
    }

    fn heading(&mut self, raw: &[char], hh: usize, fill: usize)
        ensures
            acc_of(*final(self)) == heading_step(acc_of(*old(self)), raw@, hh as nat, fill as int),
    {
        self.flush(fill);
        let sp: usize = if last_header(&self.out) {
            hh
        } else if self.first {
            0
        } else {
            1
        };
        push_blanks(&mut self.out, sp);
        let n = raw.len();
        assert(raw@.subrange(0, n as int) =~= raw@);
        let (b, e) = trim_bounds(raw, 0, n);
        let l = copy_range(raw, b, e);
        let ghost mid = seqs_of(self.out@);
        self.push_out(l);
        self.pending = 0;
        self.first = false;
        assert(mid.push(l@) =~= mid + seq![l@]);
    }

    fn list_line(&mut self, raw: &[char], o: &FormatOptions)
        ensures
            acc_of(*final(self)) == list_step(acc_of(*old(self)), raw@, *o),
    {
        self.flush(o.fill_column);
        self.body_gap(o.heading_to_body_spacing);
        let tr = trim_end_copy(raw);
        if o.wrap_lists {
            let mut w = wrap_list_line_chars(tr.as_slice(), o.fill_column);
            let ghost before = self.out@;
            let ghost wv = w@;
            self.out.append(&mut w);
            proof {
                lemma_seqs_of_add(before, wv);
            }
        } else {
            let l = format_list_line_chars(tr.as_slice());
            self.push_out(l);
        }
        self.first = false;
        proof {
            let g = body_gap(
                flushed(acc_of(*old(self)), o.fill_column as int),
                o.heading_to_body_spacing as nat,
            );
            if !o.wrap_lists {
                assert(g.out.push(crate::list::formatted_list_line(trim_end(raw@))) =~= g.out
                    + seq![crate::list::formatted_list_line(trim_end(raw@))]);
            }
        }
    }

    fn para_line(&mut self, raw: &[char], hb: usize)
        ensures
            acc_of(*final(self)) == para_step(acc_of(*old(self)), raw@, hb as nat),
    {
        if self.para.len() == 0 && last_header(&self.out) {
            self.pending = hb;
        }
        let l = trim_end_copy(raw);
        let ghost before = self.para@;
        self.para.push(l);
        proof {
            lemma_seqs_of_push(before, l);
        }
    }

    fn text_line(&mut self, raw: &[char], hb: usize, fill: usize)
        ensures
            acc_of(*final(self)) == text_step(acc_of(*old(self)), raw@, hb as nat, fill as int),
    {
        self.flush(fill);
        self.body_gap(hb);
        let l = trim_end_copy(raw);
        self.emit_line(l);
    }

    fn normal_line(&mut self, raw: &[char], c: &CaseChars, o: &FormatOptions)
        ensures
            acc_of(*final(self)) == normal_step(acc_of(*old(self)), raw@, cases_view(*c), *o),
    {
        let n = raw.len();
        assert(raw@.subrange(0, n as int) =~= raw@);
        let (b, e) = trim_bounds(raw, 0, n);
        let bp = begin_chars();
        if b == e {
            self.blank_line(o.fill_column);
        } else if starts_with(c.upper_trimmed.as_slice(), bp.as_slice()) {
            self.begin_line(raw, c, o.heading_to_body_spacing, o.fill_column);
        } else if drawer_open_exec(c.upper_trimmed.as_slice()) {
            self.drawer_open_line(raw, c, o.fill_column);
        } else if heading_line_chars(raw) {
            self.heading(raw, o.heading_to_heading_spacing, o.fill_column);
        } else if list_item_chars(trim_end_copy(raw).as_slice()) {
            self.list_line(raw, o);
        } else if o.wrap_paragraphs && regular_paragraph_line_chars(
            raw,
            c.upper_trimmed_start.as_slice(),
        ) {
            self.para_line(raw, o.heading_to_body_spacing);
        } else {
            self.text_line(raw, o.heading_to_body_spacing, o.fill_column);
        }
    }

    /// Formats one more line, given its case conversions.
    pub fn step(&mut self, raw: &[char], c: &CaseChars, o: &FormatOptions)
        ensures
            acc_of(*final(self)) == step(acc_of(*old(self)), raw@, cases_view(*c), *o),
    {
        let tag_opt: Option<Vec<char>> = match &self.state {
            State::InBlock(t) => Some(copy_vec(t)),
            _ => None,
        };
        let ind_opt: Option<Vec<char>> = match &self.state {
            State::InDrawer { indent } => Some(copy_vec(indent)),
            _ => None,
        };
        match tag_opt {
            Some(tag) => {
                self.block_line(raw, tag, c);
                return;
            },
            None => {},
        }
        match ind_opt {
            Some(ind) => {
                self.drawer_body(raw, ind, c, o.heading_to_body_spacing);
                return;
            },
            None => {},
        }
        self.normal_line(raw, c, o);
    }
}

} // verus!
