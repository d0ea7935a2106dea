//! Greedy filling of words into lines of bounded display width.
use vstd::prelude::*;
use crate::text::{
    chars_of, copy_range, leading_ws, lemma_seqs_of_push, push_all, seqs_of, string_of, words,
    word_ranges, ws_end,
};
use crate::width::{lemma_str_w_space, lemma_str_w_bounds, lemma_str_w_concat, str_w, width_of};

verus! {

/// The room left on a line of `fill` columns after a prefix `used` columns
/// wide; at least one column.
pub open spec fn fill_target(fill: int, used: int) -> int {
    if fill > used {
        fill - used
    } else {
        1
    }
}

/// Greedy filling, one word at a time: the lines finished so far and the
/// line being filled. A word joins the current line, after one space, when
/// the result stays within `target` columns; otherwise it starts a new line.
pub open spec fn greedy_fold(ws: Seq<Seq<char>>, target: int) -> (Seq<Seq<char>>, Seq<char>)
    decreases ws.len(),
{
    if ws.len() == 0 {
        (seq![], seq![])
    } else {
        let (done, cur) = greedy_fold(ws.drop_last(), target);
        let w = ws.last();
        if cur.len() == 0 {
            (done, w)
        } else if str_w(cur) + 1 + str_w(w) <= target {
            (done, cur + seq![' '] + w)
        } else {
            (done.push(cur), w)
        }
    }
}

/// The lines that greedy filling of `ws` into `target` columns gives.
pub open spec fn greedy_lines(ws: Seq<Seq<char>>, target: int) -> Seq<Seq<char>> {
    let (done, cur) = greedy_fold(ws, target);
    if cur.len() == 0 {
        done
    } else {
        done.push(cur)
    }
}

/// Each line with `pre` in front.
pub open spec fn prefix_all(pre: Seq<char>, ls: Seq<Seq<char>>) -> Seq<Seq<char>> {
    ls.map_values(|l: Seq<char>| pre + l)
}

/// The words of all lines, in order.
pub open spec fn paragraph_words(p: Seq<Seq<char>>) -> Seq<Seq<char>>
    decreases p.len(),
{
    if p.len() == 0 {
        seq![]
    } else {
        paragraph_words(p.drop_last()) + words(p.last())
    }
}

/// A paragraph refilled to `fill` columns: its words, greedily filled, each
/// line indented as its first line was.
pub open spec fn wrapped_paragraph(p: Seq<Seq<char>>, fill: int) -> Seq<Seq<char>> {
    if p.len() == 0 {
        seq![]
    } else {
        let ind = leading_ws(p[0]);
        prefix_all(ind, greedy_lines(paragraph_words(p), fill_target(fill, str_w(ind) as int)))
    }
}

/// The text of each string.
pub open spec fn strings_view(v: Seq<String>) -> Seq<Seq<char>> {
    v.map_values(|s: String| s@)
}

/// The words of `s`, each copied out.
pub(crate) fn words_vec(s: &[char]) -> (r: Vec<Vec<char>>)
    ensures
        seqs_of(r@) == words(s@),
{
    let n = s.len();
    let ranges = word_ranges(s, 0, n);
    assert(s@.subrange(0, n as int) =~= s@);
    let mut r: Vec<Vec<char>> = Vec::new();
    let mut k: usize = 0;
    while k < ranges.len()
        invariant
            k <= ranges@.len(),
            n == s@.len(),
            ranges@.len() == words(s@).len(),
            forall|j: int|
                0 <= j < ranges@.len() ==> {
                    &&& 0 <= (#[trigger] ranges@[j]).0 < ranges@[j].1 <= n
                    &&& s@.subrange(ranges@[j].0 as int, ranges@[j].1 as int) == words(s@)[j]
                },
            seqs_of(r@) == words(s@).take(k as int),
        decreases ranges@.len() - k,
    {
        let (a, b) = ranges[k];
        let w = copy_range(s, a, b);
        let ghost old_r = r@;
        r.push(w);
        proof {
            lemma_seqs_of_push(old_r, w);
            assert(words(s@).take(k + 1) =~= words(s@).take(k as int).push(words(s@)[k as int]));
        }
        k = k + 1;
    }
    assert(words(s@).take(k as int) =~= words(s@));
    r
}

/// Greedy filling of `ws` into lines of at most `target` columns.
pub(crate) fn greedy_fill(ws: &Vec<Vec<char>>, target: u128) -> (r: Vec<Vec<char>>)
    requires
        target <= usize::MAX,
    ensures
        seqs_of(r@) == greedy_lines(seqs_of(ws@), target as int),
{
    let ghost all = seqs_of(ws@);
    let mut done: Vec<Vec<char>> = Vec::new();
    let mut cur: Vec<char> = Vec::new();
    let mut cw: u128 = 0;
    let mut i: usize = 0;
    assert(all.take(0) =~= Seq::<Seq<char>>::empty());
    while i < ws.len()
        invariant
            i <= ws@.len(),
            all == seqs_of(ws@),
            target <= usize::MAX,
            (seqs_of(done@), cur@) == greedy_fold(all.take(i as int), target as int),
            cw == str_w(cur@),
            cw <= 8 * usize::MAX || cw <= target,
        decreases ws@.len() - i,
    {
        let w = &ws[i];
        let ww = width_of(w.as_slice());
        proof {
            lemma_str_w_bounds(w@);
            assert(w@.len() == w.len());
            assert(ww <= 8 * usize::MAX);
            assert(all.take(i + 1).drop_last() =~= all.take(i as int));
            assert(all.take(i + 1).last() == w@);
        }
        if cur.len() == 0 {
            let mut c2: Vec<char> = Vec::new();
            push_all(&mut c2, w.as_slice());
            assert(c2@ =~= w@);
            cur = c2;
            cw = ww;
        } else if cw + 1 + ww <= target {
            let ghost old_cur = cur@;
            cur.push(' ');
            push_all(&mut cur, w.as_slice());
            proof {
                lemma_str_w_concat(old_cur, seq![' ']);
                lemma_str_w_concat(old_cur + seq![' '], w@);
                lemma_str_w_space();
                assert(cur@ =~= old_cur + seq![' '] + w@);
            }
            cw = cw + 1 + ww;
        } else {
            let ghost old_done = done@;
            let mut c2: Vec<char> = Vec::new();
            push_all(&mut c2, w.as_slice());
            assert(c2@ =~= w@);
            let ghost old_cur = cur@;
            std::mem::swap(&mut cur, &mut c2);
            assert(c2@ == old_cur);
            done.push(c2);
            proof {
                lemma_seqs_of_push(old_done, c2);
            }
            cw = ww;
        }
        i = i + 1;
    }
    assert(all.take(i as int) =~= all);
    if cur.len() > 0 {
        let ghost old_done = done@;
        done.push(cur);
        proof {
            lemma_seqs_of_push(old_done, cur);
        }
    }
    done
}

/// Each line of `ls` with `pre` in front.
pub(crate) fn prefix_lines(pre: &[char], ls: &Vec<Vec<char>>) -> (r: Vec<Vec<char>>)
    ensures
        seqs_of(r@) == prefix_all(pre@, seqs_of(ls@)),
{
    let mut r: Vec<Vec<char>> = Vec::new();
    let mut k: usize = 0;
    while k < ls.len()
        invariant
            k <= ls@.len(),
            seqs_of(r@) == prefix_all(pre@, seqs_of(ls@)).take(k as int),
        decreases ls@.len() - k,
    {
        let mut l: Vec<char> = Vec::new();
        push_all(&mut l, pre);
        push_all(&mut l, ls[k].as_slice());
        let ghost old_r = r@;
        r.push(l);
        proof {
            lemma_seqs_of_push(old_r, l);
            assert(prefix_all(pre@, seqs_of(ls@)).take(k + 1) =~= prefix_all(
                pre@,
                seqs_of(ls@),
            ).take(k as int).push(pre@ + ls@[k as int]@));
        }
        k = k + 1;
    }
    assert(prefix_all(pre@, seqs_of(ls@)).take(k as int) =~= prefix_all(pre@, seqs_of(ls@)));
    r
}

/// `fill_target` in exact arithmetic.
pub(crate) fn fill_target_exec(fill: usize, used: u128) -> (t: u128)
    ensures
        t == fill_target(fill as int, used as int),
        t <= usize::MAX,
{
    if (fill as u128) > used {
        fill as u128 - used
    } else {
        1
    }
}

/// Refills a paragraph given as character lines.
pub(crate) fn wrap_paragraph_chars(p: &Vec<Vec<char>>, fill: usize) -> (r: Vec<Vec<char>>)
    ensures
        seqs_of(r@) == wrapped_paragraph(seqs_of(p@), fill as int),
{
    if p.len() == 0 {
        return Vec::new();
    }
    let ghost ps = seqs_of(p@);
    let first = p[0].as_slice();
    let e = ws_end(first, 0, first.len());
    assert(first@.subrange(0, first@.len() as int) =~= first@);
    let ind = copy_range(first, 0, e);
    let mut all: Vec<Vec<char>> = Vec::new();
    let mut k: usize = 0;
    while k < p.len()
        invariant
            k <= p@.len(),
            ps == seqs_of(p@),
            seqs_of(all@) == paragraph_words(ps.take(k as int)),
        decreases p@.len() - k,
    {
        let mut ws = words_vec(p[k].as_slice());
        let ghost old_all = seqs_of(all@);
        let ghost wsv = seqs_of(ws@);
        all.append(&mut ws);
        proof {
            assert(seqs_of(all@) =~= old_all + wsv);
            assert(ps.take(k + 1).drop_last() =~= ps.take(k as int));
        }
        k = k + 1;
    }
    assert(ps.take(k as int) =~= ps);
    let iw = width_of(ind.as_slice());
    let target = fill_target_exec(fill, iw);
    let lines = greedy_fill(&all, target);
    prefix_lines(ind.as_slice(), &lines)
}

/// Converts lines of characters to strings.
pub(crate) fn strings_of(v: &Vec<Vec<char>>) -> (r: Vec<String>)
    ensures
        strings_view(r@) == seqs_of(v@),
{
    let mut r: Vec<String> = Vec::new();
    let mut k: usize = 0;
    while k < v.len()
        invariant
            k <= v@.len(),
            strings_view(r@) == seqs_of(v@).take(k as int),
        decreases v@.len() - k,
    {
        let s = string_of(v[k].as_slice());
        let ghost old_r = r@;
        r.push(s);
        assert(strings_view(r@) =~= strings_view(old_r).push(s@));
        assert(seqs_of(v@).take(k + 1) =~= seqs_of(v@).take(k as int).push(v@[k as int]@));
        k = k + 1;
    }
    assert(seqs_of(v@).take(k as int) =~= seqs_of(v@));
    r
}

/// Converts strings to lines of characters.
pub(crate) fn char_lines_of(v: &[String]) -> (r: Vec<Vec<char>>)
    ensures
        seqs_of(r@) == strings_view(v@),
{
    let mut r: Vec<Vec<char>> = Vec::new();
    let mut k: usize = 0;
    while k < v.len()
        invariant
            k <= v@.len(),
            seqs_of(r@) == strings_view(v@).take(k as int),
        decreases v@.len() - k,
    {
        let c = chars_of(v[k].as_str());
        let ghost old_r = r@;
        r.push(c);
        proof {
            lemma_seqs_of_push(old_r, c);
        }
        assert(strings_view(v@).take(k + 1) =~= strings_view(v@).take(k as int).push(v@[k as int]@));
        k = k + 1;
    }
    assert(strings_view(v@).take(k as int) =~= strings_view(v@));
    r
}

/// Refills a paragraph to `fill_column` columns: its words are laid out
/// greedily, each line indented as the paragraph's first line.
pub fn wrap_paragraph(paragraph: &[String], fill_column: usize) -> (r: Vec<String>)
    ensures
        strings_view(r@) == wrapped_paragraph(strings_view(paragraph@), fill_column as int),
{
    let p = char_lines_of(paragraph);
    let w = wrap_paragraph_chars(&p, fill_column);
    strings_of(&w)
}

} // verus!
