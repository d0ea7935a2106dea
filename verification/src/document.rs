//! Formatting a whole document: splitting it into lines, dropping blank
//! lines at its ends, running the formatter and joining the result.
use vstd::prelude::*;
use crate::case::{to_lower, to_upper};
use crate::engine::{acc_of, cases_view, indent_end, type_rest_bounds, CaseChars, Engine};
use crate::format::{
    blank, cases_of, cases_of_lines, content_lines, formatted_org, formatted_text, leading_blank,
    lines_text, render, run, step, trailing_blank, Cases, FormatOptions,
};
use crate::text::{
    chars_of, first_word_bounds, lines, push_all, seqs_of, split_lines, string_of, trim_bounds,
    ws_suffix_start,
};
use crate::wrap::{char_lines_of, strings_view};

verus! {

/// The case conversions of one line, as strings: the trimmed line
/// upper-cased, the line after its indentation upper-cased, its first word
/// upper-cased and its block type lower-cased.
pub struct LineCases {
    pub upper_trimmed: String,
    pub upper_trimmed_start: String,
    pub upper_first_word: String,
    pub lower_block_type: String,
}

pub open spec fn line_cases_view(c: LineCases) -> Cases {
    Cases {
        upper_trimmed: c.upper_trimmed@,
        upper_trimmed_start: c.upper_trimmed_start@,
        upper_first_word: c.upper_first_word@,
        lower_block_type: c.lower_block_type@,
    }
}

pub open spec fn cases_seq(cs: Seq<CaseChars>) -> Seq<Cases> {
    cs.map_values(|c: CaseChars| cases_view(c))
}

pub open spec fn line_cases_seq(cs: Seq<LineCases>) -> Seq<Cases> {
    cs.map_values(|c: LineCases| line_cases_view(c))
}

/// Computes the case conversions of a line.
pub(crate) fn cases_for(raw: &[char]) -> (c: CaseChars)
    ensures
        cases_view(c) == cases_of(raw@),
{
    let n = raw.len();
    assert(raw@.subrange(0, n as int) =~= raw@);
    let (b, e) = trim_bounds(raw, 0, n);
    let upper_trimmed = to_upper(vstd::slice::slice_subrange(raw, b, e));
    let a = indent_end(raw);
    let upper_trimmed_start = to_upper(vstd::slice::slice_subrange(raw, a, n));
    let te = ws_suffix_start(raw, 0, n);
    assert(crate::text::trim_end(raw@) =~= raw@.subrange(0, te as int));
    let (p, q) = match first_word_bounds(raw, 0, te) {
        Some(r) => r,
        None => (0, 0),
    };
    assert(crate::text::first_word(crate::text::trim_end(raw@)) =~= raw@.subrange(p as int, q as int));
    let upper_first_word = to_upper(vstd::slice::slice_subrange(raw, p, q));
    let (x, y) = type_rest_bounds(raw);
    let (p2, q2) = match first_word_bounds(raw, x, y) {
        Some(r) => r,
        None => (0, 0),
    };
    assert(crate::text::first_word(crate::format::type_rest(raw@)) =~= raw@.subrange(
        p2 as int,
        q2 as int,
    ));
    let lower_block_type = to_lower(vstd::slice::slice_subrange(raw, p2, q2));
    CaseChars { upper_trimmed, upper_trimmed_start, upper_first_word, lower_block_type }
}

fn is_blank_line(l: &[char]) -> (b: bool)
    ensures
        b == blank(l@),
{
    let n = l.len();
    assert(l@.subrange(0, n as int) =~= l@);
    let (b, e) = trim_bounds(l, 0, n);
    b == e
}

proof fn lemma_leading_blank_unique(ls: Seq<Seq<char>>, k: int)
    requires
        0 <= k <= ls.len(),
        forall|j: int| 0 <= j < k ==> blank(#[trigger] ls[j]),
        k < ls.len() ==> !blank(ls[k]),
    ensures
        leading_blank(ls) == k,
    decreases k,
{
    if k > 0 {
        assert forall|j: int| 0 <= j < k - 1 implies blank(#[trigger] ls.drop_first()[j]) by {
            assert(ls.drop_first()[j] == ls[j + 1]);
        }
        lemma_leading_blank_unique(ls.drop_first(), k - 1);
    }
}

proof fn lemma_trailing_blank_unique(ls: Seq<Seq<char>>, k: int)
    requires
        0 <= k <= ls.len(),
        forall|j: int| ls.len() - k <= j < ls.len() ==> blank(#[trigger] ls[j]),
        k < ls.len() ==> !blank(ls[ls.len() - k - 1]),
    ensures
        trailing_blank(ls) == k,
    decreases k,
{
    if k > 0 {
        let d = ls.drop_last();
        assert forall|j: int| d.len() - (k - 1) <= j < d.len() implies blank(#[trigger] d[j]) by {
            assert(d[j] == ls[j]);
        }
        if k - 1 < d.len() {
            assert(d[d.len() - (k - 1) - 1] == ls[ls.len() - k - 1]);
        }
        lemma_trailing_blank_unique(d, k - 1);
    }
}

/// The range of lines left once blank lines at both ends are dropped.
fn content_bounds(ls: &Vec<Vec<char>>) -> (r: (usize, usize))
    ensures
        r.0 <= r.1 <= ls@.len(),
        seqs_of(ls@).subrange(r.0 as int, r.1 as int) == ({
            let a = seqs_of(ls@).skip(leading_blank(seqs_of(ls@)) as int);
            a.take(a.len() - trailing_blank(a))
        }),
{
    let ghost all = seqs_of(ls@);
    let n = ls.len();
    let mut lo: usize = 0;
    while lo < n && is_blank_line(ls[lo].as_slice())
        invariant
            lo <= n == ls@.len(),
            all == seqs_of(ls@),
            forall|j: int| 0 <= j < lo ==> blank(#[trigger] all[j]),
        decreases n - lo,
    {
        lo = lo + 1;
    }
    proof {
        lemma_leading_blank_unique(all, lo as int);
    }
    let mut hi: usize = n;
    while hi > lo && is_blank_line(ls[hi - 1].as_slice())
        invariant
            lo <= hi <= n == ls@.len(),
            all == seqs_of(ls@),
            forall|j: int| hi <= j < n ==> blank(#[trigger] all[j]),
        decreases hi - lo,
    {
        hi = hi - 1;
    }
    proof {
        let a = all.skip(lo as int);
        assert forall|j: int| a.len() - (n - hi) <= j < a.len() implies blank(#[trigger] a[j]) by {
            assert(a[j] == all[lo + j]);
        }
        if hi > lo {
            assert(a[a.len() - (n - hi) - 1] == all[hi - 1]);
        }
        lemma_trailing_blank_unique(a, (n - hi) as int);
        assert(all.subrange(lo as int, hi as int) =~= a.take(a.len() - trailing_blank(a)));
    }
    (lo, hi)
}

/// Each line followed by a newline; a lone newline for no lines.
fn render_exec(out: &Vec<Vec<char>>) -> (r: Vec<char>)
    ensures
        r@ == render(seqs_of(out@)),
{
    let mut r: Vec<char> = Vec::new();
    if out.len() == 0 {
        r.push('\n');
        assert(r@ =~= seq!['\n']);
        return r;
    }
    let ghost all = seqs_of(out@);
    let mut k: usize = 0;
    assert(all.take(0) =~= Seq::<Seq<char>>::empty());
    while k < out.len()
        invariant
            k <= out@.len(),
            all == seqs_of(out@),
            r@ == lines_text(all.take(k as int)),
        decreases out@.len() - k,
    {
        push_all(&mut r, out[k].as_slice());
        r.push('\n');
        proof {
            assert(all.take(k + 1).drop_last() =~= all.take(k as int));
            assert(all.take(k + 1).last() == out@[k as int]@);
        }
        k = k + 1;
    }
    assert(all.take(k as int) =~= all);
    r
}

/// Formats the lines `ls[lo..hi]`, whose case conversions are `cs`.
fn format_range(
    ls: &Vec<Vec<char>>,
    lo: usize,
    hi: usize,
    cs: &Vec<CaseChars>,
    o: &FormatOptions,
) -> (r: Vec<char>)
    requires
        lo <= hi <= ls@.len(),
        cs@.len() == hi - lo,
    ensures
        r@ == formatted_text(seqs_of(ls@).subrange(lo as int, hi as int), cases_seq(cs@), *o),
{
    let ghost all = seqs_of(ls@);
    let ghost cv = cases_seq(cs@);
    let mut e = Engine::new();
    let mut k: usize = 0;
    assert(all.subrange(lo as int, lo as int) =~= Seq::<Seq<char>>::empty());
    while k < hi - lo
        invariant
            lo <= hi <= ls@.len(),
            cs@.len() == hi - lo,
            k <= hi - lo,
            all == seqs_of(ls@),
            cv == cases_seq(cs@),
            acc_of(e) == run(all.subrange(lo as int, lo + k), cv.take(k as int), *o),
        decreases hi - lo - k,
    {
        e.step(ls[lo + k].as_slice(), &cs[k], o);
        proof {
            let l1 = all.subrange(lo as int, lo + k + 1);
            let c1 = cv.take(k + 1);
            assert(l1.drop_last() =~= all.subrange(lo as int, lo + k));
            assert(c1.drop_last() =~= cv.take(k as int));
            assert(l1.last() == ls@[lo + k]@);
            assert(c1.last() == cases_view(cs@[k as int]));
        }
        k = k + 1;
    }
    assert(cv.take(k as int) =~= cv);
    e.flush(o.fill_column);
    render_exec(&e.out)
}

/// Formats lines given with their case conversions (`cases[i]` belongs to
/// `lines[i]`): runs the formatter over them and joins the output with
/// newlines, ending in one.
pub fn format_lines(lines: &[String], cases: &[LineCases], options: &FormatOptions) -> (r: String)
    requires
        lines@.len() == cases@.len(),
    ensures
        r@ == formatted_text(strings_view(lines@), line_cases_seq(cases@), *options),
{
    let ls = char_lines_of(lines);
    let mut cs: Vec<CaseChars> = Vec::new();
    let mut k: usize = 0;
    while k < cases.len()
        invariant
            k <= cases@.len(),
            cases_seq(cs@) == line_cases_seq(cases@).take(k as int),
        decreases cases@.len() - k,
    {
        let c = &cases[k];
        let cc = CaseChars {
            upper_trimmed: chars_of(c.upper_trimmed.as_str()),
            upper_trimmed_start: chars_of(c.upper_trimmed_start.as_str()),
            upper_first_word: chars_of(c.upper_first_word.as_str()),
            lower_block_type: chars_of(c.lower_block_type.as_str()),
        };
        let ghost before = cs@;
        cs.push(cc);
        assert(cases_seq(cs@) =~= cases_seq(before).push(cases_view(cc)));
        assert(line_cases_seq(cases@).take(k + 1) =~= line_cases_seq(cases@).take(k as int).push(
            line_cases_view(cases@[k as int]),
        ));
        k = k + 1;
    }
    assert(line_cases_seq(cases@).take(k as int) =~= line_cases_seq(cases@));
    assert(seqs_of(ls@).subrange(0, ls@.len() as int) =~= seqs_of(ls@));
    let text = format_range(&ls, 0, ls.len(), &cs, options);
    string_of(text.as_slice())
}

/// Formats an Org document: blank lines at its ends are dropped, runs of
/// empty lines collapse, headings, drawers, blocks and lists are
/// normalised and spaced as `options` says, and the text ends with one
/// newline. A blank document formats to the empty string.
pub fn format_org(input: &str, options: &FormatOptions) -> (r: String)
    ensures
        r@ == formatted_org(input@, *options),
{
    let v = chars_of(input);
    let ls = split_lines(v.as_slice());
    let (lo, hi) = content_bounds(&ls);
    let ghost content = seqs_of(ls@).subrange(lo as int, hi as int);
    assert(content == content_lines(input@));
    if lo == hi {
        return String::new();
    }
    let mut cs: Vec<CaseChars> = Vec::new();
    let mut k: usize = lo;
    while k < hi
        invariant
            lo <= k <= hi <= ls@.len(),
            content == seqs_of(ls@).subrange(lo as int, hi as int),
            cases_seq(cs@) == cases_of_lines(content).take(k - lo),
            cs@.len() == k - lo,
        decreases hi - k,
    {
        let c = cases_for(ls[k].as_slice());
        let ghost before = cs@;
        cs.push(c);
        assert(cases_seq(cs@) =~= cases_seq(before).push(cases_view(c)));
        assert(cases_of_lines(content).take(k + 1 - lo) =~= cases_of_lines(content).take(
            k - lo,
        ).push(cases_of(content[k - lo])));
        k = k + 1;
    }
    assert(cases_of_lines(content).take(k - lo) =~= cases_of_lines(content));
    let text = format_range(&ls, lo, hi, &cs, options);
    string_of(text.as_slice())
}

} // verus!
