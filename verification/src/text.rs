//! Character-level building blocks: Unicode whitespace, spans of characters,
//! trimming, word splitting, line splitting and conversions between `str`,
//! `String` and `Vec<char>`.
use vstd::prelude::*;

verus! {

/// Unicode `White_Space`, the set that `char::is_whitespace` tests.
pub open spec fn is_ws(c: char) -> bool {
    let u = c as u32;
    ||| (0x9 <= u && u <= 0xD)
    ||| u == 0x20
    ||| u == 0x85
    ||| u == 0xA0
    ||| u == 0x1680
    ||| (0x2000 <= u && u <= 0x200A)
    ||| u == 0x2028
    ||| u == 0x2029
    ||| u == 0x202F
    ||| u == 0x205F
    ||| u == 0x3000
}

pub open spec fn is_ascii_digit(c: char) -> bool {
    0x30 <= (c as u32) && (c as u32) <= 0x39
}

pub open spec fn is_ascii_lower(c: char) -> bool {
    0x61 <= (c as u32) && (c as u32) <= 0x7A
}

pub open spec fn ws_pred() -> spec_fn(char) -> bool {
    |c: char| is_ws(c)
}

pub open spec fn word_pred() -> spec_fn(char) -> bool {
    |c: char| !is_ws(c)
}

pub open spec fn star_pred() -> spec_fn(char) -> bool {
    |c: char| c == '*'
}

pub open spec fn digit_pred() -> spec_fn(char) -> bool {
    |c: char| is_ascii_digit(c)
}

pub open spec fn not_newline_pred() -> spec_fn(char) -> bool {
    |c: char| c != '\n'
}

pub open spec fn not_colon_pred() -> spec_fn(char) -> bool {
    |c: char| c != ':'
}

/// Length of the longest prefix of `s` whose characters all satisfy `p`.
pub open spec fn span_len(s: Seq<char>, p: spec_fn(char) -> bool) -> nat
    decreases s.len(),
{
    if s.len() > 0 && p(s[0]) {
        1 + span_len(s.drop_first(), p)
    } else {
        0
    }
}

/// Length of the longest suffix of `s` made of whitespace.
pub open spec fn ws_suffix_len(s: Seq<char>) -> nat
    decreases s.len(),
{
    if s.len() > 0 && is_ws(s.last()) {
        1 + ws_suffix_len(s.drop_last())
    } else {
        0
    }
}

/// The leading whitespace of `s`.
pub open spec fn leading_ws(s: Seq<char>) -> Seq<char> {
    s.take(span_len(s, ws_pred()) as int)
}

/// `str::trim_start`.
pub open spec fn trim_start(s: Seq<char>) -> Seq<char> {
    s.skip(span_len(s, ws_pred()) as int)
}

/// `str::trim_end`.
pub open spec fn trim_end(s: Seq<char>) -> Seq<char> {
    s.take(s.len() - ws_suffix_len(s))
}

/// `str::trim`.
pub open spec fn trim(s: Seq<char>) -> Seq<char> {
    trim_start(trim_end(s))
}

/// `str::split_whitespace`: the maximal runs of non-whitespace characters.
pub open spec fn words(s: Seq<char>) -> Seq<Seq<char>>
    decreases s.len(),
{
    let t = trim_start(s);
    if t.len() == 0 {
        seq![]
    } else {
        let n = span_len(t, word_pred());
        proof {
            lemma_span(s, ws_pred());
            assert(t[0] == s[span_len(s, ws_pred()) as int]);
            lemma_span(t, word_pred());
            assert(n >= 1);
        }
        seq![t.take(n as int)] + words(t.skip(n as int))
    }
}

/// The first word of `s`, or the empty sequence where `s` has none.
pub open spec fn first_word(s: Seq<char>) -> Seq<char> {
    if words(s).len() > 0 {
        words(s)[0]
    } else {
        seq![]
    }
}

/// A line with a trailing carriage return removed.
pub open spec fn strip_cr(l: Seq<char>) -> Seq<char> {
    if l.len() > 0 && l.last() == '\r' {
        l.drop_last()
    } else {
        l
    }
}

/// `str::lines`: split at `\n`, drop one `\r` before each `\n`; a final
/// line terminator does not start another line.
pub open spec fn lines(s: Seq<char>) -> Seq<Seq<char>>
    decreases s.len(),
{
    if s.len() == 0 {
        seq![]
    } else {
        let n = span_len(s, not_newline_pred());
        proof {
            lemma_span(s, not_newline_pred());
        }
        if n == s.len() {
            seq![s]
        } else {
            seq![strip_cr(s.take(n as int))] + lines(s.skip(n + 1 as int))
        }
    }
}

/// `n` copies of `c`.
pub open spec fn repeat_char(c: char, n: nat) -> Seq<char> {
    Seq::new(n, |i: int| c)
}

pub proof fn lemma_span(s: Seq<char>, p: spec_fn(char) -> bool)
    ensures
        span_len(s, p) <= s.len(),
        forall|j: int| 0 <= j < span_len(s, p) ==> p(#[trigger] s[j]),
        span_len(s, p) < s.len() ==> !p(s[span_len(s, p) as int]),
    decreases s.len(),
{
    if s.len() > 0 && p(s[0]) {
        lemma_span(s.drop_first(), p);
        assert forall|j: int| 0 <= j < span_len(s, p) implies p(#[trigger] s[j]) by {
            if j > 0 {
                assert(s[j] == s.drop_first()[j - 1]);
            }
        }
    }
}

pub proof fn lemma_span_unique(s: Seq<char>, p: spec_fn(char) -> bool, n: int)
    requires
        0 <= n <= s.len(),
        forall|j: int| 0 <= j < n ==> p(#[trigger] s[j]),
        n < s.len() ==> !p(s[n]),
    ensures
        span_len(s, p) == n,
    decreases n,
{
    if n > 0 {
        assert forall|j: int| 0 <= j < n - 1 implies p(#[trigger] s.drop_first()[j]) by {
            assert(s.drop_first()[j] == s[j + 1]);
        }
        lemma_span_unique(s.drop_first(), p, n - 1);
    }
}

pub proof fn lemma_ws_suffix(s: Seq<char>)
    ensures
        ws_suffix_len(s) <= s.len(),
        forall|j: int| s.len() - ws_suffix_len(s) <= j < s.len() ==> is_ws(#[trigger] s[j]),
        ws_suffix_len(s) < s.len() ==> !is_ws(s[s.len() - ws_suffix_len(s) - 1]),
    decreases s.len(),
{
    if s.len() > 0 && is_ws(s.last()) {
        lemma_ws_suffix(s.drop_last());
        assert forall|j: int|
            s.len() - ws_suffix_len(s) <= j < s.len() implies is_ws(#[trigger] s[j]) by {
            if j < s.len() - 1 {
                assert(s[j] == s.drop_last()[j]);
            }
        }
    }
}

pub proof fn lemma_ws_suffix_unique(s: Seq<char>, n: int)
    requires
        0 <= n <= s.len(),
        forall|j: int| s.len() - n <= j < s.len() ==> is_ws(#[trigger] s[j]),
        n < s.len() ==> !is_ws(s[s.len() - n - 1]),
    ensures
        ws_suffix_len(s) == n,
    decreases n,
{
    if n > 0 {
        let d = s.drop_last();
        assert forall|j: int| d.len() - (n - 1) <= j < d.len() implies is_ws(#[trigger] d[j]) by {
            assert(d[j] == s[j]);
        }
        if n - 1 < d.len() {
            assert(d[d.len() - (n - 1) - 1] == s[s.len() - n - 1]);
        }
        lemma_ws_suffix_unique(d, n - 1);
    }
}

/// `char::is_whitespace`.
pub(crate) fn is_whitespace_char(c: char) -> (b: bool)
    ensures
        b == is_ws(c),
{
    let u = c as u32;
    (0x9 <= u && u <= 0xD) || u == 0x20 || u == 0x85 || u == 0xA0 || u == 0x1680 || (0x2000 <= u
        && u <= 0x200A) || u == 0x2028 || u == 0x2029 || u == 0x202F || u == 0x205F || u == 0x3000
}

pub(crate) fn is_word_char(c: char) -> (b: bool)
    ensures
        b == !is_ws(c),
{
    !is_whitespace_char(c)
}

pub(crate) fn is_star(c: char) -> (b: bool)
    ensures
        b == (c == '*'),
{
    c == '*'
}

pub(crate) fn is_digit_char(c: char) -> (b: bool)
    ensures
        b == is_ascii_digit(c),
{
    let u = c as u32;
    0x30 <= u && u <= 0x39
}

pub(crate) fn is_lower_char(c: char) -> (b: bool)
    ensures
        b == is_ascii_lower(c),
{
    let u = c as u32;
    0x61 <= u && u <= 0x7A
}

pub(crate) fn is_not_newline(c: char) -> (b: bool)
    ensures
        b == (c != '\n'),
{
    c != '\n'
}

pub(crate) fn is_not_colon(c: char) -> (b: bool)
    ensures
        b == (c != ':'),
{
    c != ':'
}

/// End of the run of characters satisfying `f` that starts at `lo`, looking
/// no further than `hi`.
pub(crate) fn span(
    s: &[char],
    lo: usize,
    hi: usize,
    f: impl Fn(char) -> bool,
    Ghost(p): Ghost<spec_fn(char) -> bool>,
) -> (r: usize)
    requires
        lo <= hi <= s@.len(),
        forall|c: char| f.requires((c,)),
        forall|c: char, b: bool| f.ensures((c,), b) ==> b == p(c),
    ensures
        lo <= r <= hi,
        r - lo == span_len(s@.subrange(lo as int, hi as int), p),
{
    let mut i = lo;
    while i < hi && f(s[i])
        invariant
            lo <= i <= hi <= s@.len(),
            forall|c: char| f.requires((c,)),
            forall|c: char, b: bool| f.ensures((c,), b) ==> b == p(c),
            forall|j: int| lo <= j < i ==> p(#[trigger] s@[j]),
        decreases hi - i,
    {
        i = i + 1;
    }
    proof {
        let t = s@.subrange(lo as int, hi as int);
        assert forall|j: int| 0 <= j < i - lo implies p(#[trigger] t[j]) by {
            assert(t[j] == s@[lo + j]);
        }
        if i < hi {
            assert(t[i - lo] == s@[i as int]);
        }
        lemma_span_unique(t, p, i - lo);
    }
    i
}

/// Start of the run of whitespace that ends at `hi`, looking no further back
/// than `lo`.
pub(crate) fn ws_suffix_start(s: &[char], lo: usize, hi: usize) -> (r: usize)
    requires
        lo <= hi <= s@.len(),
    ensures
        lo <= r <= hi,
        hi - r == ws_suffix_len(s@.subrange(lo as int, hi as int)),
{
    let mut i = hi;
    while i > lo && is_whitespace_char(s[i - 1])
        invariant
            lo <= i <= hi <= s@.len(),
            forall|j: int| i <= j < hi ==> is_ws(#[trigger] s@[j]),
        decreases i - lo,
    {
        i = i - 1;
    }
    proof {
        let t = s@.subrange(lo as int, hi as int);
        assert forall|j: int| t.len() - (hi - i) <= j < t.len() implies is_ws(#[trigger] t[j]) by {
            assert(t[j] == s@[lo + j]);
        }
        if i > lo {
            assert(t[t.len() - (hi - i) - 1] == s@[i - 1]);
        }
        lemma_ws_suffix_unique(t, (hi - i) as int);
    }
    i
}

/// Bounds of `trim` of `s[lo..hi]`.
pub(crate) fn trim_bounds(s: &[char], lo: usize, hi: usize) -> (r: (usize, usize))
    requires
        lo <= hi <= s@.len(),
    ensures
        lo <= r.0 <= r.1 <= hi,
        s@.subrange(r.0 as int, r.1 as int) == trim(s@.subrange(lo as int, hi as int)),
        s@.subrange(lo as int, r.1 as int) == trim_end(s@.subrange(lo as int, hi as int)),
{
    let e = ws_suffix_start(s, lo, hi);
    let b = span(s, lo, e, is_whitespace_char, Ghost(ws_pred()));
    proof {
        let t = s@.subrange(lo as int, hi as int);
        assert(trim_end(t) =~= s@.subrange(lo as int, e as int));
        assert(trim_start(s@.subrange(lo as int, e as int)) =~= s@.subrange(b as int, e as int));
    }
    (b, e)
}

/// End of the leading whitespace of `s[lo..hi]`.
pub(crate) fn ws_end(s: &[char], lo: usize, hi: usize) -> (r: usize)
    requires
        lo <= hi <= s@.len(),
    ensures
        lo <= r <= hi,
        s@.subrange(lo as int, r as int) == leading_ws(s@.subrange(lo as int, hi as int)),
        s@.subrange(r as int, hi as int) == trim_start(s@.subrange(lo as int, hi as int)),
{
    let r = span(s, lo, hi, is_whitespace_char, Ghost(ws_pred()));
    proof {
        let t = s@.subrange(lo as int, hi as int);
        assert(leading_ws(t) =~= s@.subrange(lo as int, r as int));
        assert(trim_start(t) =~= s@.subrange(r as int, hi as int));
    }
    r
}

/// The words of `s[i..j]` when the first one starts at `a` and ends at `b`.
pub proof fn lemma_words_step(s: Seq<char>, i: int, j: int, a: int, b: int)
    requires
        0 <= i <= a < b <= j <= s.len(),
        s.subrange(i, a) == leading_ws(s.subrange(i, j)),
        s.subrange(a, j) == trim_start(s.subrange(i, j)),
        b - a == span_len(s.subrange(a, j), word_pred()),
    ensures
        words(s.subrange(i, j)) == seq![s.subrange(a, b)] + words(s.subrange(b, j)),
{
    let t = s.subrange(i, j);
    let tt = trim_start(t);
    assert(tt.len() > 0);
    assert(tt.take(b - a) =~= s.subrange(a, b));
    assert(tt.skip(b - a) =~= s.subrange(b, j));
}

/// `s[i..j]` has no words when it is all whitespace.
pub proof fn lemma_words_none(s: Seq<char>, i: int, j: int)
    requires
        0 <= i <= j <= s.len(),
        trim_start(s.subrange(i, j)).len() == 0,
    ensures
        words(s.subrange(i, j)) == Seq::<Seq<char>>::empty(),
{
}

/// The words of `s[lo..hi]`, each as a range of `s`.
pub(crate) fn word_ranges(s: &[char], lo: usize, hi: usize) -> (r: Vec<(usize, usize)>)
    requires
        lo <= hi <= s@.len(),
    ensures
        r@.len() == words(s@.subrange(lo as int, hi as int)).len(),
        forall|k: int|
            0 <= k < r@.len() ==> {
                &&& lo <= (#[trigger] r@[k]).0 < r@[k].1 <= hi
                &&& s@.subrange(r@[k].0 as int, r@[k].1 as int) == words(
                    s@.subrange(lo as int, hi as int),
                )[k]
            },
{
    let mut r: Vec<(usize, usize)> = Vec::new();
    let mut i = lo;
    let ghost all = words(s@.subrange(lo as int, hi as int));
    loop
        invariant
            lo <= i <= hi <= s@.len(),
            all == words(s@.subrange(lo as int, hi as int)),
            all == r@.map_values(|p: (usize, usize)| s@.subrange(p.0 as int, p.1 as int))
                + words(s@.subrange(i as int, hi as int)),
            forall|k: int| 0 <= k < r@.len() ==> lo <= (#[trigger] r@[k]).0 < r@[k].1 <= i,
        decreases hi - i,
    {
        let a = ws_end(s, i, hi);
        if a == hi {
            proof {
                lemma_words_none(s@, i as int, hi as int);
                assert(all =~= r@.map_values(
                    |p: (usize, usize)| s@.subrange(p.0 as int, p.1 as int),
                ));
                assert forall|k: int| 0 <= k < r@.len() implies s@.subrange(
                    (#[trigger] r@[k]).0 as int,
                    r@[k].1 as int,
                ) == all[k] by {
                    assert(all[k] == r@.map_values(
                        |p: (usize, usize)| s@.subrange(p.0 as int, p.1 as int),
                    )[k]);
                }
            }
            return r;
        }
        let b = span(s, a, hi, is_word_char, Ghost(word_pred()));
        proof {
            lemma_span(s@.subrange(a as int, hi as int), word_pred());
            let t = s@.subrange(a as int, hi as int);
            assert(t[0] == s@[a as int]);
            assert(!is_ws(s@[a as int])) by {
                lemma_span(s@.subrange(i as int, hi as int), ws_pred());
                assert(s@.subrange(i as int, hi as int)[a - i] == s@[a as int]);
            }
            lemma_words_step(s@, i as int, hi as int, a as int, b as int);
        }
        let ghost old_r = r@;
        r.push((a, b));
        proof {
            let f = |p: (usize, usize)| s@.subrange(p.0 as int, p.1 as int);
            assert(r@.map_values(f) =~= old_r.map_values(f).push(s@.subrange(a as int, b as int)));
            assert(all =~= r@.map_values(f) + words(s@.subrange(b as int, hi as int)));
        }
        i = b;
    }
}

/// Appends `s[lo..hi]` to `v`.
pub(crate) fn push_range(v: &mut Vec<char>, s: &[char], lo: usize, hi: usize)
    requires
        lo <= hi <= s@.len(),
    ensures
        final(v)@ == old(v)@ + s@.subrange(lo as int, hi as int),
{
    let mut i = lo;
    while i < hi
        invariant
            lo <= i <= hi <= s@.len(),
            v@ == old(v)@ + s@.subrange(lo as int, i as int),
        decreases hi - i,
    {
        v.push(s[i]);
        i = i + 1;
        assert(v@ =~= old(v)@ + s@.subrange(lo as int, i as int));
    }
}

/// Appends all of `s` to `v`.
pub(crate) fn push_all(v: &mut Vec<char>, s: &[char])
    ensures
        final(v)@ == old(v)@ + s@,
{
    push_range(v, s, 0, s.len());
    assert(s@.subrange(0, s@.len() as int) =~= s@);
}

/// A copy of `s[lo..hi]`.
pub(crate) fn copy_range(s: &[char], lo: usize, hi: usize) -> (r: Vec<char>)
    requires
        lo <= hi <= s@.len(),
    ensures
        r@ == s@.subrange(lo as int, hi as int),
{
    let mut r: Vec<char> = Vec::new();
    push_range(&mut r, s, lo, hi);
    assert(r@ =~= s@.subrange(lo as int, hi as int));
    r
}

/// The characters of a string slice.
pub(crate) fn chars_of(s: &str) -> (v: Vec<char>)
    ensures
        v@ == s@,
{
    let mut v: Vec<char> = Vec::new();
    for c in it: s.chars()
        invariant
            v@ == it.seq().take(it.index() as int),
            it.seq() == s@,
    {
        v.push(c);
    }
    v
}

/// Calls `String::push`; the contract claims that the string's characters
/// become the old ones followed by `c`.
#[verifier::external_body]
fn push_char(s: &mut String, c: char)
    ensures
        final(s)@ == old(s)@.push(c),
{
    s.push(c);
}

/// A string made of the characters of `v`.
pub(crate) fn string_of(v: &[char]) -> (s: String)
    ensures
        s@ == v@,
{
    let mut s = String::new();
    let mut i: usize = 0;
    while i < v.len()
        invariant
            i <= v@.len(),
            s@ == v@.take(i as int),
        decreases v@.len() - i,
    {
        push_char(&mut s, v[i]);
        i = i + 1;
        assert(s@ =~= v@.take(i as int));
    }
    assert(v@.take(v@.len() as int) =~= v@);
    s
}


/// The character sequences held by a vector of character vectors.
pub open spec fn seqs_of(v: Seq<Vec<char>>) -> Seq<Seq<char>> {
    v.map_values(|x: Vec<char>| x@)
}

pub proof fn lemma_seqs_of_push(v: Seq<Vec<char>>, x: Vec<char>)
    ensures
        seqs_of(v.push(x)) == seqs_of(v).push(x@),
{
    assert(seqs_of(v.push(x)) =~= seqs_of(v).push(x@));
}

/// The lines of `s[i..n]` when the first one ends at `e`.
proof fn lemma_lines_step(s: Seq<char>, i: int, e: int)
    requires
        0 <= i < s.len(),
        i <= e <= s.len(),
        e - i == span_len(s.subrange(i, s.len() as int), not_newline_pred()),
    ensures
        e == s.len() ==> lines(s.subrange(i, s.len() as int)) == seq![s.subrange(i, e)],
        e < s.len() ==> lines(s.subrange(i, s.len() as int)) == seq![
            strip_cr(s.subrange(i, e)),
        ] + lines(s.subrange(e + 1, s.len() as int)),
{
    let t = s.subrange(i, s.len() as int);
    assert(t.take(e - i) =~= s.subrange(i, e));
    if e < s.len() {
        assert(t.skip(e - i + 1) =~= s.subrange(e + 1, s.len() as int));
    }
    if e == s.len() {
        assert(t =~= s.subrange(i, e));
    }
}

/// `str::lines` on a character slice.
pub(crate) fn split_lines(s: &[char]) -> (r: Vec<Vec<char>>)
    ensures
        seqs_of(r@) == lines(s@),
{
    let n = s.len();
    let mut r: Vec<Vec<char>> = Vec::new();
    let mut i: usize = 0;
    assert(s@.subrange(0, n as int) =~= s@);
    while i < n
        invariant
            n == s@.len(),
            i <= n,
            seqs_of(r@) + lines(s@.subrange(i as int, n as int)) == lines(s@),
        decreases n - i,
    {
        let e = span(s, i, n, is_not_newline, Ghost(not_newline_pred()));
        proof {
            lemma_lines_step(s@, i as int, e as int);
        }
        let ghost old_r = r@;
        if e == n {
            let l = copy_range(s, i, e);
            r.push(l);
            proof {
                lemma_seqs_of_push(old_r, l);
                assert(s@.subrange(n as int, n as int) =~= Seq::<char>::empty());
                assert(seqs_of(r@) + lines(s@.subrange(n as int, n as int)) =~= seqs_of(old_r)
                    + lines(s@.subrange(i as int, n as int)));
            }
            i = n;
        } else {
            let l = if e > i && s[e - 1] == '\r' {
                copy_range(s, i, e - 1)
            } else {
                copy_range(s, i, e)
            };
            proof {
                let t = s@.subrange(i as int, e as int);
                if e > i && s@[e - 1] == '\r' {
                    assert(t.drop_last() =~= s@.subrange(i as int, e - 1));
                }
                assert(l@ == strip_cr(t));
            }
            r.push(l);
            proof {
                lemma_seqs_of_push(old_r, l);
                assert(seqs_of(r@) + lines(s@.subrange(e + 1, n as int)) =~= seqs_of(old_r)
                    + lines(s@.subrange(i as int, n as int)));
            }
            i = e + 1;
        }
    }
    assert(seqs_of(r@) + lines(s@.subrange(i as int, n as int)) =~= seqs_of(r@));
    r
}


/// `s` begins with `p`.
pub open spec fn has_prefix(s: Seq<char>, p: Seq<char>) -> bool {
    p.len() <= s.len() && s.take(p.len() as int) == p
}

/// `s` ends with `p`.
pub open spec fn has_suffix(s: Seq<char>, p: Seq<char>) -> bool {
    p.len() <= s.len() && s.skip(s.len() - p.len()) == p
}

/// `str::starts_with` on character slices.
pub(crate) fn starts_with(s: &[char], p: &[char]) -> (b: bool)
    ensures
        b == has_prefix(s@, p@),
{
    if p.len() > s.len() {
        return false;
    }
    let mut i: usize = 0;
    while i < p.len()
        invariant
            i <= p@.len() <= s@.len(),
            s@.take(i as int) == p@.take(i as int),
        decreases p@.len() - i,
    {
        if s[i] != p[i] {
            assert(s@.take(p@.len() as int)[i as int] != p@[i as int]);
            return false;
        }
        i = i + 1;
        assert(s@.take(i as int) =~= p@.take(i as int));
    }
    assert(p@.take(p@.len() as int) =~= p@);
    true
}

/// `str::ends_with` on character slices.
pub(crate) fn ends_with(s: &[char], p: &[char]) -> (b: bool)
    ensures
        b == has_suffix(s@, p@),
{
    if p.len() > s.len() {
        return false;
    }
    let off = s.len() - p.len();
    let mut i: usize = 0;
    while i < p.len()
        invariant
            off + p@.len() == s@.len(),
            s.len() == s@.len(),
            i <= p@.len(),
            forall|j: int| 0 <= j < i ==> s@[off + j] == p@[j],
        decreases p@.len() - i,
    {
        if s[off + i] != p[i] {
            assert(s@.skip(off as int)[i as int] != p@[i as int]);
            return false;
        }
        i = i + 1;
    }
    assert(s@.skip(off as int) =~= p@);
    true
}

/// Two character slices hold the same characters.
pub(crate) fn chars_eq(a: &[char], b: &[char]) -> (r: bool)
    ensures
        r == (a@ == b@),
{
    if a.len() != b.len() {
        return false;
    }
    let r = starts_with(a, b);
    assert(a@.take(b@.len() as int) =~= a@);
    r
}


pub proof fn lemma_seqs_of_add(a: Seq<Vec<char>>, b: Seq<Vec<char>>)
    ensures
        seqs_of(a + b) == seqs_of(a) + seqs_of(b),
{
    assert(seqs_of(a + b) =~= seqs_of(a) + seqs_of(b));
}

/// Bounds of the first word of `s[lo..hi]`, if it has one.
pub(crate) fn first_word_bounds(s: &[char], lo: usize, hi: usize) -> (r: Option<(usize, usize)>)
    requires
        lo <= hi <= s@.len(),
    ensures
        r is None ==> words(s@.subrange(lo as int, hi as int)).len() == 0 && first_word(
            s@.subrange(lo as int, hi as int),
        ) == Seq::<char>::empty(),
        r matches Some(p) ==> {
            &&& lo <= p.0 < p.1 <= hi
            &&& words(s@.subrange(lo as int, hi as int)).len() > 0
            &&& first_word(s@.subrange(lo as int, hi as int)) == s@.subrange(p.0 as int, p.1 as int)
            &&& s@.subrange(lo as int, p.0 as int) == leading_ws(s@.subrange(lo as int, hi as int))
        },
{
    let a = ws_end(s, lo, hi);
    if a == hi {
        proof {
            lemma_words_none(s@, lo as int, hi as int);
        }
        return None;
    }
    let b = span(s, a, hi, is_word_char, Ghost(word_pred()));
    proof {
        let t = s@.subrange(a as int, hi as int);
        lemma_span(t, word_pred());
        assert(t[0] == s@[a as int]);
        assert(!is_ws(s@[a as int])) by {
            lemma_span(s@.subrange(lo as int, hi as int), ws_pred());
            assert(s@.subrange(lo as int, hi as int)[a - lo] == s@[a as int]);
        }
        lemma_words_step(s@, lo as int, hi as int, a as int, b as int);
    }
    Some((a, b))
}


/// A span over a concatenation stops in the first part if it can.
pub proof fn lemma_span_concat(u: Seq<char>, v: Seq<char>, p: spec_fn(char) -> bool)
    ensures
        span_len(u + v, p) == if span_len(u, p) < u.len() {
            span_len(u, p)
        } else {
            u.len() + span_len(v, p)
        },
    decreases u.len(),
{
    if u.len() == 0 {
        assert(u + v =~= v);
    } else if p(u[0]) {
        lemma_span_concat(u.drop_first(), v, p);
        assert((u + v).drop_first() =~= u.drop_first() + v);
        lemma_span(u, p);
    } else {
        assert((u + v)[0] == u[0]);
    }
}

/// Every character of `s` is whitespace.
pub open spec fn all_ws(s: Seq<char>) -> bool {
    forall|i: int| 0 <= i < s.len() ==> is_ws(#[trigger] s[i])
}

/// No character of `s` is whitespace.
pub open spec fn no_ws(s: Seq<char>) -> bool {
    forall|i: int| 0 <= i < s.len() ==> !is_ws(#[trigger] s[i])
}

pub proof fn lemma_span_all(s: Seq<char>, p: spec_fn(char) -> bool)
    requires
        forall|i: int| 0 <= i < s.len() ==> p(#[trigger] s[i]),
    ensures
        span_len(s, p) == s.len(),
{
    lemma_span_unique(s, p, s.len() as int);
}

/// The leading whitespace is all whitespace, and what follows starts with
/// something else.
pub proof fn lemma_leading_ws(s: Seq<char>)
    ensures
        all_ws(leading_ws(s)),
        leading_ws(s) + trim_start(s) == s,
        trim_start(s).len() > 0 ==> !is_ws(trim_start(s)[0]),
{
    lemma_span(s, ws_pred());
    let n = span_len(s, ws_pred()) as int;
    assert forall|i: int| 0 <= i < leading_ws(s).len() implies is_ws(#[trigger] leading_ws(s)[i]) by {
        assert(leading_ws(s)[i] == s[i]);
    }
    assert(leading_ws(s) + trim_start(s) =~= s);
    if trim_start(s).len() > 0 {
        assert(trim_start(s)[0] == s[n]);
    }
}

/// Whitespace in front changes neither the trimmed text nor the words.
pub proof fn lemma_ws_prefix(x: Seq<char>, y: Seq<char>)
    requires
        all_ws(x),
    ensures
        trim_start(x + y) == trim_start(y),
        words(x + y) == words(y),
        leading_ws(x + y) == x + leading_ws(y),
{
    lemma_span_all(x, ws_pred());
    lemma_span_concat(x, y, ws_pred());
    lemma_span(y, ws_pred());
    assert((x + y).skip((x.len() + span_len(y, ws_pred())) as int) =~= y.skip(
        span_len(y, ws_pred()) as int,
    ));
    assert((x + y).take((x.len() + span_len(y, ws_pred())) as int) =~= x + y.take(
        span_len(y, ws_pred()) as int,
    ));
}

/// Text that starts with a non-whitespace character is its own trim_start.
pub proof fn lemma_trim_start_noop(s: Seq<char>)
    requires
        s.len() == 0 || !is_ws(s[0]),
    ensures
        trim_start(s) == s,
        leading_ws(s) == Seq::<char>::empty(),
{
    assert(span_len(s, ws_pred()) == 0);
    assert(s.skip(0) =~= s);
    assert(s.take(0) =~= Seq::<char>::empty());
}

/// A run of non-whitespace is one word.
pub proof fn lemma_words_single(w: Seq<char>)
    requires
        w.len() > 0,
        no_ws(w),
    ensures
        words(w) == seq![w],
{
    lemma_trim_start_noop(w);
    lemma_span_all(w, word_pred());
    assert(w.take(w.len() as int) =~= w);
    assert(w.skip(w.len() as int) =~= Seq::<char>::empty());
    assert(trim_start(Seq::<char>::empty()).len() == 0);
    assert(words(Seq::<char>::empty()) =~= Seq::<Seq<char>>::empty());
    assert(words(w) == seq![w.take(w.len() as int)] + words(w.skip(w.len() as int)));
    assert(words(w) =~= seq![w]);
}

/// Words are never empty and hold no whitespace.
pub proof fn lemma_words_shape(s: Seq<char>)
    ensures
        forall|j: int|
            0 <= j < words(s).len() ==> (#[trigger] words(s)[j]).len() > 0 && no_ws(words(s)[j]),
    decreases s.len(),
{
    let t = trim_start(s);
    if t.len() > 0 {
        lemma_span(s, ws_pred());
        lemma_leading_ws(s);
        let n = span_len(t, word_pred());
        lemma_span(t, word_pred());
        lemma_words_shape(t.skip(n as int));
        let w = t.take(n as int);
        assert forall|i: int| 0 <= i < w.len() implies !is_ws(#[trigger] w[i]) by {
            assert(w[i] == t[i]);
        }
        assert forall|j: int| 0 <= j < words(s).len() implies (#[trigger] words(s)[j]).len() > 0
            && no_ws(words(s)[j]) by {
            if j > 0 {
                assert(words(s)[j] == words(t.skip(n as int))[j - 1]);
            }
        }
    }
}

/// A whitespace character between two texts separates their words.
pub proof fn lemma_words_split(x: Seq<char>, c: char, y: Seq<char>)
    requires
        is_ws(c),
    ensures
        words(x + seq![c] + y) == words(x) + words(y),
    decreases x.len(),
{
    let s = x + seq![c] + y;
    let a = span_len(x, ws_pred());
    lemma_span(x, ws_pred());
    lemma_leading_ws(x);
    if a == x.len() {
        assert(all_ws(x + seq![c])) by {
            assert forall|i: int| 0 <= i < (x + seq![c]).len() implies is_ws(
                #[trigger] (x + seq![c])[i],
            ) by {
                if i < x.len() {
                    assert((x + seq![c])[i] == x[i]);
                    assert(x[i] == leading_ws(x)[i]);
                }
            }
        }
        lemma_ws_prefix(x + seq![c], y);
        assert(trim_start(x).len() == 0);
        assert(words(x) =~= Seq::<Seq<char>>::empty());
        assert(words(x) + words(y) =~= words(y));
    } else {
        let lw = leading_ws(x);
        let xt = trim_start(x);
        assert(x =~= lw + xt);
        lemma_ws_prefix(lw, xt + seq![c] + y);
        lemma_ws_prefix(lw, xt);
        assert(s =~= lw + (xt + seq![c] + y));
        let t = xt + seq![c] + y;
        assert(trim_start(s) == trim_start(t));
        lemma_trim_start_noop(t);
        lemma_trim_start_noop(xt);
        let b = span_len(xt, word_pred());
        lemma_span(xt, word_pred());
        assert(b >= 1);
        lemma_span_concat(xt, seq![c] + y, word_pred());
        assert(t =~= xt + (seq![c] + y));
        if b == xt.len() {
            assert((seq![c] + y)[0] == c);
            assert(span_len(seq![c] + y, word_pred()) == 0);
        }
        assert(span_len(t, word_pred()) == b);
        assert(t.take(b as int) =~= xt.take(b as int));
        let rest = xt.skip(b as int);
        assert(t.skip(b as int) =~= rest + seq![c] + y);
        lemma_words_split(rest, c, y);
        assert(words(s) == seq![xt.take(b as int)] + words(t.skip(b as int)));
        assert(words(xt) == seq![xt.take(b as int)] + words(rest));
        assert(words(x) == words(xt));
        assert(words(s) =~= words(x) + words(y));
    }
}

} // verus!
