//! Display width of characters and strings, in terminal columns.
use vstd::prelude::*;
use crate::text::{chars_of, repeat_char};

verus! {

/// East Asian blocks that occupy two columns: Hangul Jamo, CJK radicals,
/// symbols and punctuation, Hiragana, Katakana, Hangul compatibility Jamo,
/// enclosed CJK letters, CJK ideographs (extension A, unified,
/// compatibility), half- and full-width forms, Hangul syllables and the CJK
/// ideographs of planes 2 and 3.
pub open spec fn is_wide(u: u32) -> bool {
    ||| (0x1100 <= u && u <= 0x11FF)
    ||| (0x2E80 <= u && u <= 0x2EFF)
    ||| (0x3000 <= u && u <= 0x303F)
    ||| (0x3040 <= u && u <= 0x309F)
    ||| (0x30A0 <= u && u <= 0x30FF)
    ||| (0x3130 <= u && u <= 0x318F)
    ||| (0x3200 <= u && u <= 0x32FF)
    ||| (0x3400 <= u && u <= 0x4DBF)
    ||| (0x4E00 <= u && u <= 0x9FFF)
    ||| (0xF900 <= u && u <= 0xFAFF)
    ||| (0xFF00 <= u && u <= 0xFFEF)
    ||| (0xAC00 <= u && u <= 0xD7AF)
    ||| (0x20000 <= u && u <= 0x3FFFD)
}

/// Columns taken by one character: a tab takes eight, a wide character two,
/// any other one.
pub open spec fn char_w(c: char) -> nat {
    if c == '\t' {
        8
    } else if is_wide(c as u32) {
        2
    } else {
        1
    }
}

/// Columns taken by a string: the sum of its characters' widths.
pub open spec fn str_w(s: Seq<char>) -> nat
    decreases s.len(),
{
    if s.len() == 0 {
        0
    } else {
        str_w(s.drop_last()) + char_w(s.last())
    }
}

/// Width is additive over concatenation.
pub proof fn lemma_str_w_concat(a: Seq<char>, b: Seq<char>)
    ensures
        str_w(a + b) == str_w(a) + str_w(b),
    decreases b.len(),
{
    if b.len() == 0 {
        assert(a + b =~= a);
    } else {
        lemma_str_w_concat(a, b.drop_last());
        assert((a + b).drop_last() =~= a + b.drop_last());
    }
}

/// A string is at least as wide as it is long, and at most eight times.
pub proof fn lemma_str_w_bounds(s: Seq<char>)
    ensures
        s.len() <= str_w(s) <= 8 * s.len(),
    decreases s.len(),
{
    if s.len() > 0 {
        lemma_str_w_bounds(s.drop_last());
    }
}

/// A space is one column wide.
pub proof fn lemma_str_w_space()
    ensures
        str_w(seq![' ']) == 1,
{
    let s = seq![' '];
    assert(s.drop_last() =~= Seq::<char>::empty());
    assert(s.len() == 1);
    assert(s.last() == ' ');
    assert(str_w(s.drop_last()) == 0);
    assert((' ' as u32) == 32);
    assert(char_w(' ') == 1);
    assert(str_w(s) == str_w(s.drop_last()) + char_w(s.last()));
}

/// Width of a run of spaces.
pub proof fn lemma_str_w_spaces(n: nat)
    ensures
        str_w(repeat_char(' ', n)) == n,
    decreases n,
{
    if n > 0 {
        lemma_str_w_spaces((n - 1) as nat);
        assert(repeat_char(' ', n).drop_last() =~= repeat_char(' ', (n - 1) as nat));
    }
}

/// The display width of one character.
pub fn char_width(c: char) -> (w: usize)
    ensures
        w == char_w(c),
{
    if c == '\t' {
        8
    } else {
        let val = c as u32;
        if (val >= 0x1100 && val <= 0x11FF) || (val >= 0x2E80 && val <= 0x2EFF) || (val >= 0x3000
            && val <= 0x303F) || (val >= 0x3040 && val <= 0x309F) || (val >= 0x30A0 && val
            <= 0x30FF) || (val >= 0x3130 && val <= 0x318F) || (val >= 0x3200 && val <= 0x32FF)
            || (val >= 0x3400 && val <= 0x4DBF) || (val >= 0x4E00 && val <= 0x9FFF) || (val
            >= 0xF900 && val <= 0xFAFF) || (val >= 0xFF00 && val <= 0xFFEF) || (val >= 0xAC00
            && val <= 0xD7AF) || (val >= 0x20000 && val <= 0x3FFFD) {
            2
        } else {
            1
        }
    }
}

/// The display width of `s[lo..hi]`.
pub(crate) fn width_range(s: &[char], lo: usize, hi: usize) -> (w: u128)
    requires
        lo <= hi <= s@.len(),
    ensures
        w == str_w(s@.subrange(lo as int, hi as int)),
{
    let mut w: u128 = 0;
    let mut i = lo;
    while i < hi
        invariant
            lo <= i <= hi <= s@.len(),
            w == str_w(s@.subrange(lo as int, i as int)),
        decreases hi - i,
    {
        proof {
            lemma_str_w_bounds(s@.subrange(lo as int, i as int));
            assert(s@.subrange(lo as int, i + 1).drop_last() =~= s@.subrange(lo as int, i as int));
        }
        w = w + char_width(s[i]) as u128;
        i = i + 1;
    }
    w
}

/// The display width of a whole character slice.
pub(crate) fn width_of(s: &[char]) -> (w: u128)
    ensures
        w == str_w(s@),
{
    assert(s@.subrange(0, s@.len() as int) =~= s@);
    width_range(s, 0, s.len())
}

/// The display width of a string: the sum of its characters' widths.
pub fn str_width(s: &str) -> (w: usize)
    requires
        str_w(s@) <= usize::MAX,
    ensures
        w == str_w(s@),
{
    let v = chars_of(s);
    let w = width_of(v.as_slice());
    w as usize
}

} // verus!
