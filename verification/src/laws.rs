//! Properties that hold of every input: what wrapping keeps and bounds, how
//! list normalisation settles, and how the formatter spaces and preserves
//! text.
use vstd::prelude::*;
use crate::classify::{
    begin_prefix, drawer_end_tag, end_prefix, heading_level, heading_or_drawer_end, heading_line, list_item, regular_paragraph_line,
};
use crate::format::{
    blank, blank_step, blanks, block_open_line, body_gap, cases_of_lines, content_lines,
    drawer_indent, drawer_line, drawer_open, flushed, formatted_org, leading_blank, lines_text,
    trailing_blank, last_is_header, run, step, formatted_text, initial, cases_of, Acc, Cases, FormatOptions, Mode,
};
use crate::list::{
    formatted_list_line, hang, is_bullet, is_closer, list_parts, marker_line, parts_after,
    wrapped_list_line,
};
use crate::case::upper_case;
use crate::text::{
    lemma_span_all, not_newline_pred, strip_cr,
    all_ws, digit_pred, has_prefix, is_ascii_digit, is_ascii_lower, is_ws, leading_ws, lemma_span,
    lemma_span_concat, lemma_span_unique, lemma_trim_start_noop, lemma_ws_suffix, ws_suffix_len, lines, span_len, trim, trim_end, ws_pred, lemma_leading_ws, lemma_words_shape, lemma_words_single,
    lemma_words_split, lemma_ws_prefix, no_ws, repeat_char, trim_start, words,
};
use crate::width::{
    lemma_str_w_bounds, lemma_str_w_concat, lemma_str_w_space, lemma_str_w_spaces, str_w,
};
use crate::wrap::{
    fill_target, greedy_fold, greedy_lines, paragraph_words, prefix_all, wrapped_paragraph,
};

verus! {

/// A line of greedy filling is one of the words, or it fits the target (and
/// the target leaves room for more than one column).
pub open spec fn word_or_fits(l: Seq<char>, ws: Seq<Seq<char>>, target: int) -> bool {
    ws.contains(l) || (str_w(l) <= target && target >= 2)
}

/// Words for filling: none empty, none holding whitespace.
pub open spec fn proper_words(ws: Seq<Seq<char>>) -> bool {
    forall|j: int| 0 <= j < ws.len() ==> (#[trigger] ws[j]).len() > 0 && no_ws(ws[j])
}

proof fn lemma_contains_drop_last(ws: Seq<Seq<char>>, l: Seq<char>)
    requires
        ws.len() > 0,
        ws.drop_last().contains(l),
    ensures
        ws.contains(l),
{
    let j = choose|j: int| 0 <= j < ws.drop_last().len() && ws.drop_last()[j] == l;
    assert(ws[j] == l);
}

proof fn lemma_greedy_fold_fits(ws: Seq<Seq<char>>, target: int)
    ensures
        forall|i: int|
            0 <= i < greedy_fold(ws, target).0.len() ==> word_or_fits(
                #[trigger] greedy_fold(ws, target).0[i],
                ws,
                target,
            ),
        greedy_fold(ws, target).1.len() == 0 || word_or_fits(greedy_fold(ws, target).1, ws, target),
    decreases ws.len(),
{
    if ws.len() > 0 {
        let d = ws.drop_last();
        lemma_greedy_fold_fits(d, target);
        let (done, cur) = greedy_fold(d, target);
        let w = ws.last();
        assert(ws[ws.len() - 1] == w);
        assert(ws.contains(w));
        assert forall|l: Seq<char>| word_or_fits(l, d, target) implies word_or_fits(l, ws, target) by {
            if d.contains(l) {
                lemma_contains_drop_last(ws, l);
            }
        }
        if cur.len() == 0 {
        } else if str_w(cur) + 1 + str_w(w) <= target {
            lemma_str_w_bounds(cur);
            lemma_str_w_space();
            lemma_str_w_concat(cur, seq![' ']);
            lemma_str_w_concat(cur + seq![' '], w);
        } else {
            let nd = done.push(cur);
            assert forall|i: int| 0 <= i < nd.len() implies word_or_fits(#[trigger] nd[i], ws, target) by {
                if i < done.len() {
                    assert(nd[i] == done[i]);
                }
            }
        }
    }
}

/// Greedy filling puts on each line either a single word or words that fit
/// the target width.
pub proof fn law_greedy_fits(ws: Seq<Seq<char>>, target: int)
    ensures
        forall|i: int|
            0 <= i < greedy_lines(ws, target).len() ==> word_or_fits(
                #[trigger] greedy_lines(ws, target)[i],
                ws,
                target,
            ),
{
    lemma_greedy_fold_fits(ws, target);
    let (done, cur) = greedy_fold(ws, target);
    if cur.len() > 0 {
        assert forall|i: int| 0 <= i < done.push(cur).len() implies word_or_fits(
            #[trigger] done.push(cur)[i],
            ws,
            target,
        ) by {
            if i < done.len() {
                assert(done.push(cur)[i] == done[i]);
            }
        }
    }
}

proof fn lemma_words_empty()
    ensures
        words(Seq::<char>::empty()) == Seq::<Seq<char>>::empty(),
{
    assert(trim_start(Seq::<char>::empty()).len() == 0);
}

proof fn lemma_paragraph_words_push(ls: Seq<Seq<char>>, l: Seq<char>)
    ensures
        paragraph_words(ls.push(l)) == paragraph_words(ls) + words(l),
{
    assert(ls.push(l).drop_last() =~= ls);
}

proof fn lemma_greedy_fold_words(ws: Seq<Seq<char>>, target: int)
    requires
        proper_words(ws),
    ensures
        paragraph_words(greedy_fold(ws, target).0) + words(greedy_fold(ws, target).1) == ws,
    decreases ws.len(),
{
    lemma_words_empty();
    if ws.len() == 0 {
        assert(paragraph_words(Seq::<Seq<char>>::empty()) + words(Seq::<char>::empty()) =~= ws);
    } else {
        let d = ws.drop_last();
        assert(proper_words(d)) by {
            assert forall|j: int| 0 <= j < d.len() implies (#[trigger] d[j]).len() > 0 && no_ws(
                d[j],
            ) by {
                assert(d[j] == ws[j]);
            }
        }
        lemma_greedy_fold_words(d, target);
        let (done, cur) = greedy_fold(d, target);
        let w = ws.last();
        assert(w == ws[ws.len() - 1]);
        lemma_words_single(w);
        assert(is_ws(' ')) by {
            assert((' ' as u32) == 0x20);
        }
        if cur.len() == 0 {
            assert(paragraph_words(done) + words(w) =~= ws);
        } else if str_w(cur) + 1 + str_w(w) <= target {
            lemma_words_split(cur, ' ', w);
            assert(paragraph_words(done) + words(cur) == d);
            assert(words(cur + seq![' '] + w) == words(cur) + seq![w]);
            assert(d + seq![w] =~= ws);
            assert(paragraph_words(done) + (words(cur) + seq![w]) =~= d + seq![w]);
        } else {
            lemma_paragraph_words_push(done, cur);
            assert(paragraph_words(done.push(cur)) + words(w) =~= ws);
        }
    }
}

/// Greedy filling of proper words loses, adds and reorders none: the words
/// of the lines, in order, are the words filled.
pub proof fn law_greedy_keeps_words(ws: Seq<Seq<char>>, target: int)
    requires
        proper_words(ws),
    ensures
        paragraph_words(greedy_lines(ws, target)) == ws,
{
    lemma_greedy_fold_words(ws, target);
    lemma_words_empty();
    let (done, cur) = greedy_fold(ws, target);
    if cur.len() == 0 {
        assert(paragraph_words(done) =~= ws);
    } else {
        lemma_paragraph_words_push(done, cur);
    }
}

proof fn lemma_prefix_all_words(pre: Seq<char>, ls: Seq<Seq<char>>)
    requires
        all_ws(pre),
    ensures
        paragraph_words(prefix_all(pre, ls)) == paragraph_words(ls),
    decreases ls.len(),
{
    if ls.len() > 0 {
        lemma_prefix_all_words(pre, ls.drop_last());
        assert(prefix_all(pre, ls).drop_last() =~= prefix_all(pre, ls.drop_last()));
        lemma_ws_prefix(pre, ls.last());
    }
}

/// The words of a paragraph are proper words.
pub proof fn lemma_paragraph_words_proper(p: Seq<Seq<char>>)
    ensures
        proper_words(paragraph_words(p)),
    decreases p.len(),
{
    if p.len() > 0 {
        lemma_paragraph_words_proper(p.drop_last());
        lemma_words_shape(p.last());
        let a = paragraph_words(p.drop_last());
        let b = words(p.last());
        assert forall|j: int| 0 <= j < (a + b).len() implies (#[trigger] (a + b)[j]).len() > 0
            && no_ws((a + b)[j]) by {
            if j < a.len() {
                assert((a + b)[j] == a[j]);
            } else {
                assert((a + b)[j] == b[j - a.len()]);
            }
        }
    }
}

/// Refilling a paragraph keeps its words, in order.
pub proof fn law_wrap_paragraph_keeps_words(p: Seq<Seq<char>>, fill: int)
    ensures
        paragraph_words(wrapped_paragraph(p, fill)) == paragraph_words(p),
{
    if p.len() > 0 {
        let ind = leading_ws(p[0]);
        lemma_leading_ws(p[0]);
        let ws = paragraph_words(p);
        let target = fill_target(fill, str_w(ind) as int);
        lemma_paragraph_words_proper(p);
        law_greedy_keeps_words(ws, target);
        lemma_prefix_all_words(ind, greedy_lines(ws, target));
    } else {
        assert(paragraph_words(Seq::<Seq<char>>::empty()) =~= Seq::<Seq<char>>::empty());
    }
}

/// Every line of a refilled paragraph starts with the paragraph's
/// indentation and is either one word of the paragraph after it or no wider
/// than the fill column.
pub proof fn law_wrap_paragraph_width(p: Seq<Seq<char>>, fill: int)
    requires
        p.len() > 0,
    ensures
        forall|i: int|
            0 <= i < wrapped_paragraph(p, fill).len() ==> {
                let l = #[trigger] wrapped_paragraph(p, fill)[i];
                let ind = leading_ws(p[0]);
                &&& has_prefix(l, ind)
                &&& (paragraph_words(p).contains(l.skip(ind.len() as int)) || str_w(l) <= fill)
            },
{
    let ind = leading_ws(p[0]);
    let ws = paragraph_words(p);
    let target = fill_target(fill, str_w(ind) as int);
    let g = greedy_lines(ws, target);
    law_greedy_fits(ws, target);
    assert forall|i: int| 0 <= i < wrapped_paragraph(p, fill).len() implies {
        let l = #[trigger] wrapped_paragraph(p, fill)[i];
        &&& has_prefix(l, ind)
        &&& (ws.contains(l.skip(ind.len() as int)) || str_w(l) <= fill)
    } by {
        let l = wrapped_paragraph(p, fill)[i];
        assert(l == ind + g[i]);
        assert(l.take(ind.len() as int) =~= ind);
        assert(l.skip(ind.len() as int) =~= g[i]);
        assert(word_or_fits(g[i], ws, target));
        lemma_str_w_concat(ind, g[i]);
    }
}

/// The prefix of line `i` of a wrapped list item.
pub open spec fn list_prefix(ind: Seq<char>, bullet: Seq<char>, i: int) -> Seq<char> {
    if i == 0 {
        ind + bullet
    } else {
        ind + repeat_char(' ', str_w(bullet))
    }
}

/// The lines of a wrapped list item without their prefixes.
pub open spec fn list_bodies(out: Seq<Seq<char>>, ind: Seq<char>, bullet: Seq<char>) -> Seq<Seq<char>> {
    Seq::new(out.len(), |i: int| out[i].skip(list_prefix(ind, bullet, i).len() as int))
}

/// Every line of a wrapped list item starts with the item's indentation
/// and bullet (the first line) or as many spaces as the bullet is wide (the
/// others); what follows is one word of the item's text or the line is no
/// wider than the fill column; and what follows the prefixes carries the
/// item's words, in order.
pub proof fn law_wrap_list_line(line: Seq<char>, fill: int)
    requires
        list_parts(line) is Some,
        words(list_parts(line).unwrap().2).len() > 0,
    ensures
        ({
            let (ind, bullet, content) = list_parts(line).unwrap();
            let out = wrapped_list_line(line, fill);
            &&& forall|i: int|
                0 <= i < out.len() ==> {
                    &&& has_prefix(#[trigger] out[i], list_prefix(ind, bullet, i))
                    &&& (words(content).contains(
                        out[i].skip(list_prefix(ind, bullet, i).len() as int),
                    ) || str_w(out[i]) <= fill)
                }
            &&& paragraph_words(list_bodies(out, ind, bullet)) == words(content)
        }),
{
    let (ind, bullet, content) = list_parts(line).unwrap();
    let ws = words(content);
    let target = fill_target(fill, (str_w(ind) + str_w(bullet)) as int);
    let g = greedy_lines(ws, target);
    let out = wrapped_list_line(line, fill);
    let first = ind + bullet;
    let rest = ind + repeat_char(' ', str_w(bullet));
    assert(content.len() > 0);
    assert(out == hang(first, rest, g));
    law_greedy_fits(ws, target);
    lemma_words_shape(content);
    law_greedy_keeps_words(ws, target);
    lemma_str_w_spaces(str_w(bullet));
    lemma_str_w_concat(ind, bullet);
    lemma_str_w_concat(ind, repeat_char(' ', str_w(bullet)));
    assert forall|i: int| 0 <= i < out.len() implies {
        &&& has_prefix(#[trigger] out[i], list_prefix(ind, bullet, i))
        &&& (ws.contains(out[i].skip(list_prefix(ind, bullet, i).len() as int)) || str_w(out[i])
            <= fill)
    } by {
        let pre = list_prefix(ind, bullet, i);
        assert(out[i] == pre + g[i]);
        assert(out[i].take(pre.len() as int) =~= pre);
        assert(out[i].skip(pre.len() as int) =~= g[i]);
        assert(word_or_fits(g[i], ws, target));
        lemma_str_w_concat(pre, g[i]);
    }
    assert(list_bodies(out, ind, bullet) =~= g) by {
        assert forall|i: int| 0 <= i < out.len() implies #[trigger] list_bodies(out, ind, bullet)[i]
            == g[i] by {
            let pre = list_prefix(ind, bullet, i);
            assert(out[i] == pre + g[i]);
            assert(out[i].skip(pre.len() as int) =~= g[i]);
        }
    }
}


/// Between a run of blank lines only the first counts: a second blank line
/// in ordinary text changes nothing.
pub proof fn law_blank_lines_collapse(
    a: Acc,
    r1: Seq<char>,
    c1: Cases,
    r2: Seq<char>,
    c2: Cases,
    o: FormatOptions,
)
    requires
        a.mode is Normal,
        blank(r1),
        blank(r2),
    ensures
        step(step(a, r1, c1, o), r2, c2, o) == step(a, r1, c1, o),
{
    let b = step(a, r1, c1, o);
    assert(b == blank_step(a, o.fill_column as int));
    assert(b.para.len() == 0);
    assert(b.mode is Normal);
    assert(step(b, r2, c2, o) == blank_step(b, o.fill_column as int));
}

/// Inside a block, a line that does not close it is written unchanged but
/// for its trailing whitespace, and nothing else changes.
pub proof fn law_block_line_verbatim(a: Acc, raw: Seq<char>, c: Cases, o: FormatOptions)
    requires
        a.mode is InBlock,
        !has_prefix(c.upper_trimmed, a.mode->InBlock_0),
    ensures
        step(a, raw, c, o) == (Acc {
            mode: a.mode,
            out: a.out.push(trim_end(raw)),
            pending: a.pending,
            first: a.first,
            para: a.para,
        }),
{
}

/// A line that is no blank, block, drawer, heading, list item or paragraph
/// line to refill.
pub open spec fn plain_text_line(raw: Seq<char>, c: Cases, o: FormatOptions) -> bool {
    &&& !blank(raw)
    &&& !has_prefix(c.upper_trimmed, begin_prefix())
    &&& !drawer_open(c.upper_trimmed)
    &&& !heading_line(raw)
    &&& !list_item(trim_end(raw))
    &&& !(o.wrap_paragraphs && regular_paragraph_line(raw, c.upper_trimmed_start))
}

/// Body text after a heading (or a drawer's end) is separated from it by
/// exactly `heading_to_body_spacing` empty lines, whatever empty lines the
/// input had.
pub proof fn law_heading_to_body_spacing(a: Acc, raw: Seq<char>, c: Cases, o: FormatOptions)
    requires
        settled(a),
        a.mode is Normal,
        a.para.len() == 0,
        last_is_header(a.out),
        plain_text_line(raw, c, o),
    ensures
        step(a, raw, c, o).out == a.out + blanks(o.heading_to_body_spacing as nat) + seq![
            trim_end(raw),
        ],
{
    assert(flushed(a, o.fill_column as int) == a);
}

/// A heading that follows a heading (or a drawer's end) is separated from
/// it by exactly `heading_to_heading_spacing` empty lines and written
/// without indentation.
pub proof fn law_heading_to_heading_spacing(a: Acc, raw: Seq<char>, c: Cases, o: FormatOptions)
    requires
        a.mode is Normal,
        a.para.len() == 0,
        last_is_header(a.out),
        !blank(raw),
        !has_prefix(c.upper_trimmed, begin_prefix()),
        !drawer_open(c.upper_trimmed),
        heading_line(raw),
    ensures
        step(a, raw, c, o).out == a.out + blanks(o.heading_to_heading_spacing as nat) + seq![
            trim(raw),
        ],
{
    assert(flushed(a, o.fill_column as int) == a);
}

/// `b` is `a` with lines appended.
pub open spec fn extends(b: Seq<Seq<char>>, a: Seq<Seq<char>>) -> bool {
    a.len() <= b.len() && b.take(a.len() as int) == a
}

proof fn lemma_extends_add(a: Seq<Seq<char>>, x: Seq<Seq<char>>)
    ensures
        extends(a + x, a),
{
    assert((a + x).take(a.len() as int) =~= a);
}

proof fn lemma_extends_push(a: Seq<Seq<char>>, l: Seq<char>)
    ensures
        extends(a.push(l), a),
{
    assert(a.push(l).take(a.len() as int) =~= a);
}

proof fn lemma_extends_trans(a: Seq<Seq<char>>, b: Seq<Seq<char>>, c: Seq<Seq<char>>)
    requires
        extends(b, a),
        extends(c, b),
    ensures
        extends(c, a),
{
    assert(c.take(a.len() as int) =~= b.take(a.len() as int));
}

proof fn lemma_flushed_extends(a: Acc, fill: int)
    ensures
        extends(flushed(a, fill).out, a.out),
{
    if a.para.len() > 0 {
        let o1 = if a.first {
            a.out
        } else {
            a.out + blanks(a.pending)
        };
        lemma_extends_add(a.out, blanks(a.pending));
        assert(extends(o1, a.out)) by {
            assert(a.out.take(a.out.len() as int) =~= a.out);
        }
        lemma_extends_add(o1, wrapped_paragraph(a.para, fill));
        lemma_extends_trans(a.out, o1, o1 + wrapped_paragraph(a.para, fill));
    } else {
        assert(a.out.take(a.out.len() as int) =~= a.out);
    }
}

proof fn lemma_body_gap_extends(a: Acc, hb: nat)
    ensures
        extends(body_gap(a, hb).out, a.out),
{
    let p = if last_is_header(a.out) {
        hb
    } else {
        a.pending
    };
    lemma_extends_add(a.out, blanks(p));
    assert(a.out.take(a.out.len() as int) =~= a.out);
}

/// Formatting only appends: what has been written stays written.
pub proof fn law_output_only_grows(a: Acc, raw: Seq<char>, c: Cases, o: FormatOptions)
    ensures
        extends(step(a, raw, c, o).out, a.out),
{
    let fill = o.fill_column as int;
    let hb = o.heading_to_body_spacing as nat;
    let f = flushed(a, fill);
    lemma_flushed_extends(a, fill);
    let g = body_gap(f, hb);
    lemma_body_gap_extends(f, hb);
    lemma_extends_trans(a.out, f.out, g.out);
    assert(a.out.take(a.out.len() as int) =~= a.out);
    match a.mode {
        Mode::InBlock(tag) => {
            lemma_extends_push(a.out, leading_ws(raw) + tag);
            lemma_extends_push(a.out, trim_end(raw));
        },
        Mode::InDrawer(ind) => {
            lemma_extends_push(a.out, ind + drawer_end_tag());
            lemma_extends_push(a.out, drawer_line(ind, trim(raw)));
        },
        Mode::Normal => {
            if trim(raw).len() == 0 {
            } else if has_prefix(c.upper_trimmed, begin_prefix()) {
                lemma_extends_push(g.out, block_open_line(raw, c));
                lemma_extends_trans(a.out, g.out, g.out.push(block_open_line(raw, c)));
            } else if drawer_open(c.upper_trimmed) {
                let ind = drawer_indent(f.out, raw);
                let out1 = if last_is_header(f.out) || f.first {
                    f.out
                } else {
                    f.out + blanks(f.pending)
                };
                lemma_extends_add(f.out, blanks(f.pending));
                assert(f.out.take(f.out.len() as int) =~= f.out);
                lemma_extends_push(out1, ind + c.upper_trimmed);
                lemma_extends_trans(f.out, out1, out1.push(ind + c.upper_trimmed));
                lemma_extends_trans(a.out, f.out, out1.push(ind + c.upper_trimmed));
            } else if heading_line(raw) {
                let sp: nat = if last_is_header(f.out) {
                    o.heading_to_heading_spacing as nat
                } else if f.first {
                    0
                } else {
                    1
                };
                lemma_extends_add(f.out, blanks(sp) + seq![trim(raw)]);
                assert(f.out + blanks(sp) + seq![trim(raw)] =~= f.out + (blanks(sp) + seq![
                    trim(raw),
                ]));
                lemma_extends_trans(a.out, f.out, f.out + blanks(sp) + seq![trim(raw)]);
            } else if list_item(trim_end(raw)) {
                let ls = if o.wrap_lists {
                    wrapped_list_line(trim_end(raw), fill)
                } else {
                    seq![formatted_list_line(trim_end(raw))]
                };
                lemma_extends_add(g.out, ls);
                lemma_extends_trans(a.out, g.out, g.out + ls);
            } else if o.wrap_paragraphs && regular_paragraph_line(raw, c.upper_trimmed_start) {
            } else {
                lemma_extends_add(g.out, seq![trim_end(raw)]);
                lemma_extends_trans(a.out, g.out, g.out + seq![trim_end(raw)]);
            }
        },
    }
}


/// Once a line has been written, or a block or drawer opened, the formatter
/// is no longer at the start of the document.
pub open spec fn settled(a: Acc) -> bool {
    (a.out.len() > 0 || !(a.mode is Normal)) ==> !a.first
}

/// Every step keeps the formatter settled.
pub proof fn law_step_settled(a: Acc, raw: Seq<char>, c: Cases, o: FormatOptions)
    requires
        settled(a),
    ensures
        settled(step(a, raw, c, o)),
{
}

/// The formatter is settled after any lines.
pub proof fn law_run_settled(ls: Seq<Seq<char>>, cs: Seq<Cases>, o: FormatOptions)
    ensures
        settled(run(ls, cs, o)),
    decreases ls.len(),
{
    if ls.len() > 0 && cs.len() > 0 {
        law_run_settled(ls.drop_last(), cs.drop_last(), o);
        law_step_settled(run(ls.drop_last(), cs.drop_last(), o), ls.last(), cs.last(), o);
    }
}


proof fn lemma_leading_blank(ls: Seq<Seq<char>>)
    ensures
        leading_blank(ls) <= ls.len(),
        forall|j: int| 0 <= j < leading_blank(ls) ==> blank(#[trigger] ls[j]),
    decreases ls.len(),
{
    if ls.len() > 0 && blank(ls[0]) {
        lemma_leading_blank(ls.drop_first());
        assert forall|j: int| 0 <= j < leading_blank(ls) implies blank(#[trigger] ls[j]) by {
            if j > 0 {
                assert(ls[j] == ls.drop_first()[j - 1]);
            }
        }
    }
}

proof fn lemma_trailing_blank(ls: Seq<Seq<char>>)
    ensures
        trailing_blank(ls) <= ls.len(),
        forall|j: int| ls.len() - trailing_blank(ls) <= j < ls.len() ==> blank(#[trigger] ls[j]),
    decreases ls.len(),
{
    if ls.len() > 0 && blank(ls.last()) {
        lemma_trailing_blank(ls.drop_last());
        assert forall|j: int| ls.len() - trailing_blank(ls) <= j < ls.len() implies blank(
            #[trigger] ls[j],
        ) by {
            if j < ls.len() - 1 {
                assert(ls[j] == ls.drop_last()[j]);
            }
        }
    }
}

proof fn lemma_leading_blank_all(ls: Seq<Seq<char>>)
    requires
        forall|j: int| 0 <= j < ls.len() ==> blank(#[trigger] ls[j]),
    ensures
        leading_blank(ls) == ls.len(),
    decreases ls.len(),
{
    if ls.len() > 0 {
        assert forall|j: int| 0 <= j < ls.drop_first().len() implies blank(
            #[trigger] ls.drop_first()[j],
        ) by {
            assert(ls.drop_first()[j] == ls[j + 1]);
        }
        lemma_leading_blank_all(ls.drop_first());
    }
}

/// A formatted document is empty exactly when every line of the input is
/// blank; otherwise it ends with a newline.
pub proof fn law_format_org_shape(input: Seq<char>, o: FormatOptions)
    ensures
        (formatted_org(input, o).len() == 0) == (forall|i: int|
            0 <= i < lines(input).len() ==> blank(#[trigger] lines(input)[i])),
        formatted_org(input, o).len() > 0 ==> formatted_org(input, o).last() == '\n',
{
    let ls = lines(input);
    let a = ls.skip(leading_blank(ls) as int);
    lemma_leading_blank(ls);
    lemma_trailing_blank(a);
    if forall|i: int| 0 <= i < ls.len() ==> blank(#[trigger] ls[i]) {
        lemma_leading_blank_all(ls);
        assert(a.len() == 0);
    }
    if content_lines(input).len() == 0 {
        assert forall|i: int| 0 <= i < ls.len() implies blank(#[trigger] ls[i]) by {
            if i >= leading_blank(ls) {
                assert(ls[i] == a[i - leading_blank(ls)]);
            }
        }
    } else {
        let cl = content_lines(input);
        let out = flushed(run(cl, cases_of_lines(cl), o), o.fill_column as int).out;
        if out.len() > 0 {
            assert(lines_text(out) == lines_text(out.drop_last()) + out.last() + seq!['\n']);
        }
    }
}

/// A line has a heading level exactly when it is a heading that starts in
/// the first column.
pub proof fn law_heading_level(line: Seq<char>)
    ensures
        (heading_level(line) is Some) == (heading_line(line) && line.len() > 0 && !is_ws(line[0])),
{
    if line.len() > 0 && !is_ws(line[0]) {
        lemma_trim_start_noop(line);
    }
    if line.len() > 0 && line[0] == '*' {
        assert(!is_ws('*')) by {
            assert(('*' as u32) == 0x2A);
        }
    }
}

/// `trim_start` is idempotent.
pub proof fn lemma_trim_start_twice(s: Seq<char>)
    ensures
        trim_start(trim_start(s)) == trim_start(s),
{
    lemma_leading_ws(s);
    lemma_trim_start_noop(trim_start(s));
}

/// Splitting a list line succeeds exactly on list items; the indentation
/// and bullet it gives are the start of the line.
pub proof fn law_split_list_line(line: Seq<char>)
    ensures
        (list_parts(line) is Some) == list_item(line),
        list_parts(line) matches Some(p) ==> p.0 == leading_ws(line) && has_prefix(line, p.0 + p.1),
{
    let t = trim_start(line);
    lemma_trim_start_twice(line);
    assert(list_item(t) == list_item(line));
    lemma_leading_ws(line);
    if let Some(p) = list_parts(line) {
        let ind = leading_ws(line);
        let m: int = if is_bullet(t[0]) {
            1
        } else if is_ascii_digit(t[0]) {
            span_len(t, digit_pred()) + 1int
        } else {
            2
        };
        assert(p == parts_after(ind, t, m));
        let rest = t.skip(m);
        let sp = span_len(rest, ws_pred()) as int;
        lemma_span(rest, ws_pred());
        assert(p.1 =~= t.take(m + sp));
        assert(line.take((ind.len() + m + sp) as int) =~= ind + t.take(m + sp)) by {
            assert(line =~= ind + t);
        }
        assert(p.0 + p.1 =~= ind + t.take(m + sp));
    }
}


/// Text with no whitespace at either end.
pub open spec fn is_trimmed(c: Seq<char>) -> bool {
    c.len() == 0 || (!is_ws(c[0]) && !is_ws(c.last()))
}

proof fn lemma_trim_is_trimmed(z: Seq<char>)
    ensures
        is_trimmed(trim(z)),
{
    let y = trim_end(z);
    lemma_ws_suffix(z);
    if y.len() > 0 {
        assert(y.last() == z[z.len() - ws_suffix_len(z) - 1]);
    }
    lemma_leading_ws(y);
    lemma_span(y, ws_pred());
    let t = trim(z);
    if t.len() > 0 {
        assert(t.last() == y.last());
    }
}

pub proof fn lemma_trim_end_noop(c: Seq<char>)
    requires
        c.len() == 0 || !is_ws(c.last()),
    ensures
        trim_end(c) == c,
{
    assert(ws_suffix_len(c) == 0);
    assert(c.take(c.len() as int) =~= c);
}

proof fn lemma_space_is_ws()
    ensures
        is_ws(' '),
        all_ws(seq![' ']),
{
    assert((' ' as u32) == 0x20);
    assert(seq![' '][0] == ' ');
}

pub proof fn lemma_trim_trimmed(c: Seq<char>)
    requires
        is_trimmed(c),
    ensures
        trim(c) == c,
        c.len() > 0 ==> trim(seq![' '] + c) == c,
{
    lemma_trim_end_noop(c);
    lemma_trim_start_noop(c);
    if c.len() > 0 {
        let sc = seq![' '] + c;
        assert(sc.last() == c.last());
        lemma_trim_end_noop(sc);
        lemma_space_is_ws();
        lemma_ws_prefix(seq![' '], c);
    }
}

/// The text after the marker in a formatted list line.
pub open spec fn after_marker(c: Seq<char>) -> Seq<char> {
    if c.len() == 0 {
        seq![]
    } else {
        seq![' '] + c
    }
}

proof fn lemma_marker_line(ind: Seq<char>, m: Seq<char>, c: Seq<char>)
    requires
        all_ws(ind),
        m.len() > 0,
        !is_ws(m[0]),
        is_trimmed(c),
    ensures
        leading_ws(marker_line(ind, m, c)) == ind,
        trim_start(marker_line(ind, m, c)) == m + after_marker(c),
        trim(after_marker(c)) == c,
{
    let rest = after_marker(c);
    let f = marker_line(ind, m, c);
    assert(f =~= ind + (m + rest));
    lemma_ws_prefix(ind, m + rest);
    assert((m + rest)[0] == m[0]);
    lemma_trim_start_noop(m + rest);
    assert(ind + Seq::<char>::empty() =~= ind);
    if c.len() == 0 {
        assert(trim_end(Seq::<char>::empty()) =~= Seq::<char>::empty());
        lemma_trim_start_noop(Seq::<char>::empty());
    } else {
        lemma_trim_trimmed(c);
    }
}

proof fn lemma_marker_chars(c: char)
    ensures
        is_bullet(c) ==> !is_ws(c) && !is_ascii_digit(c),
        is_ascii_digit(c) ==> !is_ws(c) && !is_closer(c),
        is_ascii_lower(c) ==> !is_ws(c) && !is_ascii_digit(c) && !is_bullet(c),
{
    assert(('-' as u32) == 0x2D);
    assert(('+' as u32) == 0x2B);
    assert(('*' as u32) == 0x2A);
    assert(('.' as u32) == 0x2E);
    assert((')' as u32) == 0x29);
}

/// Normalising a list line twice gives what normalising it once gives.
pub proof fn law_format_list_line_idempotent(line: Seq<char>)
    ensures
        formatted_list_line(formatted_list_line(line)) == formatted_list_line(line),
{
    let ind = leading_ws(line);
    let t = trim_start(line);
    let d = span_len(t, digit_pred()) as int;
    let f = formatted_list_line(line);
    lemma_leading_ws(line);
    lemma_span(t, digit_pred());
    if t.len() > 0 {
        lemma_marker_chars(t[0]);
    }
    if t.len() > 0 && is_bullet(t[0]) {
        let m = t.take(1);
        let c = trim(t.skip(1));
        lemma_trim_is_trimmed(t.skip(1));
        lemma_marker_line(ind, m, c);
        let t2 = m + after_marker(c);
        assert(t2[0] == t[0]);
        assert(t2.take(1) =~= m);
        assert(t2.skip(1) =~= after_marker(c));
    } else if d > 0 {
        if d < t.len() && is_closer(t[d]) {
            let m = t.take(d + 1);
            let c = trim(t.skip(d + 1));
            lemma_trim_is_trimmed(t.skip(d + 1));
            assert(is_ascii_digit(t[0]));
            lemma_marker_line(ind, m, c);
            let rest = after_marker(c);
            let t2 = m + rest;
            assert(t2[0] == t[0]);
            assert forall|j: int| 0 <= j < d implies #[trigger] digit_pred()(m[j]) by {
                assert(m[j] == t[j]);
            }
            assert(m[d] == t[d]);
            lemma_marker_chars(t[d]);
            lemma_span_unique(m, digit_pred(), d);
            lemma_span_concat(m, rest, digit_pred());
            assert(t2[d] == t[d]);
            assert(t2.take(d + 1) =~= m);
            assert(t2.skip(d + 1) =~= rest);
        }
    } else if t.len() > 1 && is_ascii_lower(t[0]) && is_closer(t[1]) {
        let m = t.take(2);
        let c = trim(t.skip(2));
        lemma_trim_is_trimmed(t.skip(2));
        lemma_marker_line(ind, m, c);
        let rest = after_marker(c);
        let t2 = m + rest;
        assert(t2[0] == t[0]);
        assert(t2[1] == t[1]);
        assert(span_len(t2, digit_pred()) == 0);
        assert(t2.take(2) =~= m);
        assert(t2.skip(2) =~= rest);
    }
}


/// With paragraph wrapping off, no line is ever held back for refilling.
pub proof fn law_no_held_paragraph_without_wrapping(
    ls: Seq<Seq<char>>,
    cs: Seq<Cases>,
    o: FormatOptions,
)
    requires
        !o.wrap_paragraphs,
    ensures
        run(ls, cs, o).para.len() == 0,
    decreases ls.len(),
{
    if ls.len() > 0 && cs.len() > 0 {
        law_no_held_paragraph_without_wrapping(ls.drop_last(), cs.drop_last(), o);
    }
}


/// The state after a heading `h` and `k` blank lines.
pub open spec fn after_heading(h: Seq<char>, k: int) -> Acc {
    Acc {
        mode: Mode::Normal,
        out: seq![h],
        pending: if k > 0 {
            1
        } else {
            0
        },
        first: false,
        para: seq![],
    }
}

/// A heading written as it stands, whose case conversions open neither a
/// block nor a drawer.
pub open spec fn plain_heading(h: Seq<char>, c: Cases) -> bool {
    &&& heading_line(h)
    &&& h == trim(h)
    &&& !has_prefix(c.upper_trimmed, begin_prefix())
    &&& !drawer_open(c.upper_trimmed)
}

proof fn lemma_plain_heading_not_blank(h: Seq<char>, c: Cases)
    requires
        plain_heading(h, c),
    ensures
        !blank(h),
        trim(h) == h,
{
    assert(trim_start(h).len() > 0);
    assert(h.len() > 0) by {
        if h.len() == 0 {
            lemma_trim_start_noop(h);
        }
    }
}

proof fn lemma_run_heading_blanks(ls: Seq<Seq<char>>, cs: Seq<Cases>, o: FormatOptions, k: int)
    requires
        ls.len() == cs.len(),
        1 <= k <= ls.len(),
        plain_heading(ls[0], cs[0]),
        forall|i: int| 1 <= i < k ==> blank(#[trigger] ls[i]),
    ensures
        run(ls.take(k), cs.take(k), o) == after_heading(ls[0], k - 1),
    decreases k,
{
    let l1 = ls.take(k);
    let c1 = cs.take(k);
    assert(l1.drop_last() =~= ls.take(k - 1));
    assert(c1.drop_last() =~= cs.take(k - 1));
    assert(l1.last() == ls[k - 1]);
    assert(c1.last() == cs[k - 1]);
    if k == 1 {
        let h = ls[0];
        lemma_plain_heading_not_blank(h, cs[0]);
        assert(run(ls.take(0), cs.take(0), o) == initial());
        let a = step(initial(), h, cs[0], o);
        assert(a.out =~= seq![h]) by {
            assert(blanks(0) =~= Seq::<Seq<char>>::empty());
        }
        assert(a.para =~= Seq::<Seq<char>>::empty());
    } else {
        lemma_run_heading_blanks(ls, cs, o, k - 1);
        let b = step(after_heading(ls[0], k - 2), ls[k - 1], cs[k - 1], o);
        assert(b.out =~= seq![ls[0]]);
        assert(b.para =~= Seq::<Seq<char>>::empty());
    }
}

proof fn lemma_lines_text_heading(h: Seq<char>, n: nat)
    ensures
        lines_text(seq![h] + blanks(n)) == h + seq!['\n'] + repeat_char('\n', n),
    decreases n,
{
    let x = seq![h] + blanks(n);
    if n == 0 {
        assert(x =~= seq![h]);
        assert(seq![h].drop_last() =~= Seq::<Seq<char>>::empty());
        assert(repeat_char('\n', 0) =~= Seq::<char>::empty());
        assert(seq![h].last() == h);
        assert(lines_text(Seq::<Seq<char>>::empty()) =~= Seq::<char>::empty());
        assert(lines_text(seq![h]) == lines_text(seq![h].drop_last()) + h + seq!['\n']);
        assert(lines_text(seq![h]) =~= h + seq!['\n'] + repeat_char('\n', 0));
    } else {
        lemma_lines_text_heading(h, (n - 1) as nat);
        assert(x.drop_last() =~= seq![h] + blanks((n - 1) as nat));
        assert(x.last() =~= Seq::<char>::empty());
        assert(repeat_char('\n', n) =~= repeat_char('\n', (n - 1) as nat) + seq!['\n']);
        assert(lines_text(x) =~= h + seq!['\n'] + repeat_char('\n', n));
    }
}

proof fn lemma_lines_text_push(x: Seq<Seq<char>>, t: Seq<char>)
    ensures
        lines_text(x.push(t)) == lines_text(x) + t + seq!['\n'],
{
    assert(x.push(t).drop_last() =~= x);
}

/// Over a whole document (what `format_lines` returns): a heading, any
/// number of blank lines, then a plain text line give the heading, exactly
/// `heading_to_body_spacing` empty lines and the text, each ending in a
/// newline. The case conversions supplied for the heading and the text must
/// not open a block or a drawer.
pub proof fn law_document_heading_to_body(ls: Seq<Seq<char>>, cs: Seq<Cases>, o: FormatOptions)
    requires
        ls.len() == cs.len(),
        ls.len() >= 2,
        plain_heading(ls[0], cs[0]),
        forall|i: int| 1 <= i < ls.len() - 1 ==> blank(#[trigger] ls[i]),
        plain_text_line(ls.last(), cs.last(), o),
        ls.last() == trim_end(ls.last()),
    ensures
        formatted_text(ls, cs, o) == ls[0] + seq!['\n'] + repeat_char(
            '\n',
            o.heading_to_body_spacing as nat,
        ) + ls.last() + seq!['\n'],
{
    let n = ls.len() as int;
    lemma_run_heading_blanks(ls, cs, o, n - 1);
    let a = after_heading(ls[0], n - 2);
    assert(ls.drop_last() =~= ls.take(n - 1));
    assert(cs.drop_last() =~= cs.take(n - 1));
    assert(run(ls, cs, o) == step(a, ls.last(), cs.last(), o));
    assert(heading_or_drawer_end(ls[0]));
    law_heading_to_body_spacing(a, ls.last(), cs.last(), o);
    let b = step(a, ls.last(), cs.last(), o);
    assert(b.para =~= Seq::<Seq<char>>::empty());
    let hb = o.heading_to_body_spacing as nat;
    assert(b.out =~= (seq![ls[0]] + blanks(hb)).push(ls.last()));
    lemma_lines_text_push(seq![ls[0]] + blanks(hb), ls.last());
    lemma_lines_text_heading(ls[0], hb);
}

/// Over a whole document (what `format_lines` returns): two headings with
/// any number of blank lines between them give the two headings separated
/// by exactly `heading_to_heading_spacing` empty lines, each ending in a
/// newline. The case conversions supplied for the headings must not open a
/// block or a drawer.
pub proof fn law_document_heading_to_heading(
    ls: Seq<Seq<char>>,
    cs: Seq<Cases>,
    o: FormatOptions,
)
    requires
        ls.len() == cs.len(),
        ls.len() >= 2,
        plain_heading(ls[0], cs[0]),
        forall|i: int| 1 <= i < ls.len() - 1 ==> blank(#[trigger] ls[i]),
        plain_heading(ls.last(), cs.last()),
    ensures
        formatted_text(ls, cs, o) == ls[0] + seq!['\n'] + repeat_char(
            '\n',
            o.heading_to_heading_spacing as nat,
        ) + ls.last() + seq!['\n'],
{
    let n = ls.len() as int;
    lemma_run_heading_blanks(ls, cs, o, n - 1);
    let a = after_heading(ls[0], n - 2);
    assert(ls.drop_last() =~= ls.take(n - 1));
    assert(cs.drop_last() =~= cs.take(n - 1));
    assert(run(ls, cs, o) == step(a, ls.last(), cs.last(), o));
    assert(heading_or_drawer_end(ls[0]));
    lemma_plain_heading_not_blank(ls.last(), cs.last());
    law_heading_to_heading_spacing(a, ls.last(), cs.last(), o);
    let b = step(a, ls.last(), cs.last(), o);
    assert(b.para =~= Seq::<Seq<char>>::empty());
    let hh = o.heading_to_heading_spacing as nat;
    assert(b.out =~= (seq![ls[0]] + blanks(hh)).push(ls.last()));
    lemma_lines_text_push(seq![ls[0]] + blanks(hh), ls.last());
    lemma_lines_text_heading(ls[0], hh);
}

/// A plain paragraph line is one whose text after the indentation is not
/// empty and is no heading, list item, `:`-delimited drawer line, comment or
/// keyword (`#`) or table row (`|`), provided the upper-cased text given for
/// it starts with `#` only when the text does, and is `:END:` only when the
/// text starts and ends with `:`.
pub proof fn law_regular_paragraph_line_plain(line: Seq<char>, upper: Seq<char>)
    requires
        upper.len() > 0 && upper[0] == '#' ==> trim_start(line).len() > 0 && trim_start(line)[0]
            == '#',
        upper == drawer_end_tag() ==> trim_start(line).len() > 0 && trim_start(line)[0] == ':'
            && trim_start(line).last() == ':',
    ensures
        regular_paragraph_line(line, upper) == ({
            let t = trim_start(line);
            &&& t.len() > 0
            &&& !heading_line(line)
            &&& !list_item(t)
            &&& !(t[0] == ':' && t.last() == ':')
            &&& t[0] != '#'
            &&& t[0] != '|'
        }),
{
    if has_prefix(upper, begin_prefix()) {
        assert(upper[0] == begin_prefix()[0]);
    }
    if has_prefix(upper, end_prefix()) {
        assert(upper[0] == end_prefix()[0]);
    }
}


/// `o` with another fill column.
pub open spec fn with_fill(o: FormatOptions, k: usize) -> FormatOptions {
    FormatOptions {
        heading_to_body_spacing: o.heading_to_body_spacing,
        heading_to_heading_spacing: o.heading_to_heading_spacing,
        wrap_paragraphs: o.wrap_paragraphs,
        wrap_lists: o.wrap_lists,
        fill_column: k,
    }
}

proof fn lemma_run_fill_free(ls: Seq<Seq<char>>, cs: Seq<Cases>, o: FormatOptions, k: usize)
    requires
        !o.wrap_paragraphs,
        !o.wrap_lists,
    ensures
        run(ls, cs, with_fill(o, k)) == run(ls, cs, o),
    decreases ls.len(),
{
    if ls.len() > 0 && cs.len() > 0 {
        lemma_run_fill_free(ls.drop_last(), cs.drop_last(), o, k);
        law_no_held_paragraph_without_wrapping(ls.drop_last(), cs.drop_last(), o);
        let a = run(ls.drop_last(), cs.drop_last(), o);
        assert(flushed(a, k as int) == a);
        assert(flushed(a, o.fill_column as int) == a);
    }
}

/// With paragraph and list wrapping both off, the fill column has no effect
/// on the formatted document.
pub proof fn law_fill_column_unused_without_wrapping(input: Seq<char>, o: FormatOptions, k: usize)
    requires
        !o.wrap_paragraphs,
        !o.wrap_lists,
    ensures
        formatted_org(input, with_fill(o, k)) == formatted_org(input, o),
{
    let ls = content_lines(input);
    let cs = cases_of_lines(ls);
    lemma_run_fill_free(ls, cs, o, k);
    law_no_held_paragraph_without_wrapping(ls, cs, o);
    let a = run(ls, cs, o);
    assert(flushed(a, k as int) == a);
    assert(flushed(a, o.fill_column as int) == a);
}


/// No character of `s` is a newline.
pub open spec fn no_newline(s: Seq<char>) -> bool {
    forall|i: int| 0 <= i < s.len() ==> s[i] != '\n'
}

proof fn lemma_lines_single(x: Seq<char>)
    requires
        x.len() > 0,
        no_newline(x),
    ensures
        lines(x) == seq![x],
{
    lemma_span_all(x, not_newline_pred());
}

proof fn lemma_lines_cons(x: Seq<char>, rest: Seq<char>)
    requires
        no_newline(x),
    ensures
        lines(x + seq!['\n'] + rest) == seq![strip_cr(x)] + lines(rest),
{
    let s = x + seq!['\n'] + rest;
    lemma_span_all(x, not_newline_pred());
    let y = seq!['\n'] + rest;
    assert(y[0] == '\n');
    assert(span_len(y, not_newline_pred()) == 0);
    lemma_span_concat(x, y, not_newline_pred());
    assert(s =~= x + y);
    assert(s.take(x.len() as int) =~= x);
    assert(s.skip(x.len() + 1int) =~= rest);
}

proof fn lemma_lines_blanks_then(m: nat, t: Seq<char>)
    requires
        t.len() > 0,
        no_newline(t),
    ensures
        lines(repeat_char('\n', m) + t) == blanks(m) + seq![t],
    decreases m,
{
    if m == 0 {
        assert(repeat_char('\n', 0) + t =~= t);
        lemma_lines_single(t);
        assert(blanks(0) + seq![t] =~= seq![t]);
    } else {
        lemma_lines_blanks_then((m - 1) as nat, t);
        let e = Seq::<char>::empty();
        assert(repeat_char('\n', m) + t =~= e + seq!['\n'] + (repeat_char('\n', (m - 1) as nat)
            + t));
        lemma_lines_cons(e, repeat_char('\n', (m - 1) as nat) + t);
        assert(strip_cr(e) == e);
        assert(blanks(m) + seq![t] =~= seq![e] + (blanks((m - 1) as nat) + seq![t]));
    }
}

/// The lines of a document made of a line `h`, `m` empty lines and a line
/// `t`, none of them blank at the ends, are exactly those lines.
proof fn lemma_content_two(h: Seq<char>, m: nat, t: Seq<char>)
    requires
        !blank(h),
        h == trim(h),
        no_newline(h),
        !blank(t),
        no_newline(t),
    ensures
        content_lines(h + seq!['\n'] + repeat_char('\n', m) + t) == seq![h] + blanks(m) + seq![t],
{
    let input = h + seq!['\n'] + repeat_char('\n', m) + t;
    assert(t.len() > 0) by {
        if t.len() == 0 {
            assert(trim_end(t) =~= t);
            lemma_trim_start_noop(t);
        }
    }
    assert(input =~= h + seq!['\n'] + (repeat_char('\n', m) + t));
    lemma_lines_cons(h, repeat_char('\n', m) + t);
    lemma_lines_blanks_then(m, t);
    lemma_trim_is_trimmed(h);
    assert(h.len() > 0);
    assert(strip_cr(h) == h) by {
        assert(!is_ws(h.last()));
        assert(('\r' as u32) == 0xD);
    }
    let ls = seq![h] + blanks(m) + seq![t];
    assert(lines(input) =~= ls);
    assert(ls[0] == h);
    assert(leading_blank(ls) == 0);
    assert(ls.skip(0) =~= ls);
    assert(ls.last() == t);
    assert(trailing_blank(ls) == 0);
    assert(ls.take(ls.len() as int) =~= ls);
}

/// The heading-to-body spacing law for `format_org`: a trimmed heading, any
/// number of empty lines and a plain text line format to the heading,
/// exactly `heading_to_body_spacing` empty lines and the text, provided the
/// upper-cased trimmed heading and text (which `format_org` obtains from
/// `str::to_uppercase`) open neither a block nor a drawer.
pub proof fn law_org_heading_to_body(h: Seq<char>, m: nat, t: Seq<char>, o: FormatOptions)
    requires
        heading_line(h),
        h == trim(h),
        no_newline(h),
        !blank(t),
        t == trim_end(t),
        no_newline(t),
        !heading_line(t),
        !list_item(t),
        !o.wrap_paragraphs,
    ensures
        ({
            let uh = upper_case(trim(h));
            let ut = upper_case(trim(t));
            (!has_prefix(uh, begin_prefix()) && !drawer_open(uh) && !has_prefix(ut, begin_prefix())
                && !drawer_open(ut)) ==> formatted_org(
                h + seq!['\n'] + repeat_char('\n', m) + t,
                o,
            ) == h + seq!['\n'] + repeat_char('\n', o.heading_to_body_spacing as nat) + t
                + seq!['\n']
        }),
{
    let uh = upper_case(trim(h));
    let ut = upper_case(trim(t));
    if !has_prefix(uh, begin_prefix()) && !drawer_open(uh) && !has_prefix(ut, begin_prefix())
        && !drawer_open(ut) {
        lemma_plain_heading_not_blank(h, cases_of(h));
        lemma_content_two(h, m, t);
        let ls = seq![h] + blanks(m) + seq![t];
        let cs = cases_of_lines(ls);
        assert(ls.len() == m + 2);
        assert(ls[0] == h);
        assert(ls.last() == t);
        assert(cs[0] == cases_of(h));
        assert(cs.last() == cases_of(t));
        assert forall|i: int| 1 <= i < ls.len() - 1 implies blank(#[trigger] ls[i]) by {
            assert(ls[i] =~= Seq::<char>::empty());
            assert(trim_end(Seq::<char>::empty()) =~= Seq::<char>::empty());
            lemma_trim_start_noop(Seq::<char>::empty());
        }
        law_document_heading_to_body(ls, cs, o);
    }
}

/// The heading-to-heading spacing law for `format_org`: two trimmed headings
/// with any number of empty lines between them format to the two headings
/// separated by exactly `heading_to_heading_spacing` empty lines, provided
/// their upper-cased forms (which `format_org` obtains from
/// `str::to_uppercase`) open neither a block nor a drawer.
pub proof fn law_org_heading_to_heading(h1: Seq<char>, m: nat, h2: Seq<char>, o: FormatOptions)
    requires
        heading_line(h1),
        h1 == trim(h1),
        no_newline(h1),
        heading_line(h2),
        h2 == trim(h2),
        no_newline(h2),
    ensures
        ({
            let u1 = upper_case(trim(h1));
            let u2 = upper_case(trim(h2));
            (!has_prefix(u1, begin_prefix()) && !drawer_open(u1) && !has_prefix(u2, begin_prefix())
                && !drawer_open(u2)) ==> formatted_org(
                h1 + seq!['\n'] + repeat_char('\n', m) + h2,
                o,
            ) == h1 + seq!['\n'] + repeat_char('\n', o.heading_to_heading_spacing as nat) + h2
                + seq!['\n']
        }),
{
    let u1 = upper_case(trim(h1));
    let u2 = upper_case(trim(h2));
    if !has_prefix(u1, begin_prefix()) && !drawer_open(u1) && !has_prefix(u2, begin_prefix())
        && !drawer_open(u2) {
        lemma_plain_heading_not_blank(h1, cases_of(h1));
        lemma_plain_heading_not_blank(h2, cases_of(h2));
        lemma_content_two(h1, m, h2);
        let ls = seq![h1] + blanks(m) + seq![h2];
        let cs = cases_of_lines(ls);
        assert(ls.len() == m + 2);
        assert(ls[0] == h1);
        assert(ls.last() == h2);
        assert(cs[0] == cases_of(h1));
        assert(cs.last() == cases_of(h2));
        assert forall|i: int| 1 <= i < ls.len() - 1 implies blank(#[trigger] ls[i]) by {
            assert(ls[i] =~= Seq::<char>::empty());
            assert(trim_end(Seq::<char>::empty()) =~= Seq::<char>::empty());
            lemma_trim_start_noop(Seq::<char>::empty());
        }
        law_document_heading_to_heading(ls, cs, o);
    }
}

} // verus!
