//! Character counting, matched to texthooker-ui so reading speeds are
//! comparable with the wider community's.
//!
//! texthooker-ui counts a line as the codepoints left after removing
//! everything outside an allowlist of digits, latin letters, kana, kanji,
//! radicals and a few marks. Punctuation, brackets and whitespace drop out.
use vstd::prelude::*;

verus! {

/// Whether texthooker-ui keeps this codepoint: ASCII and fullwidth
/// alphanumerics (either case), ○ ◯, 々〆〇, 〻, hiragana ぁ-ゖ, ゝゞ, katakana
/// ァ-ヺ, ー, halfwidth ｦ-ﾝ, the CJK radicals and the unified ideographs.
pub open spec fn counted(c: char) -> bool {
    ||| ('0' <= c && c <= '9')
    ||| ('A' <= c && c <= 'Z')
    ||| ('a' <= c && c <= 'z')
    ||| c == '\u{25CB}' || c == '\u{25EF}'
    ||| ('\u{3005}' <= c && c <= '\u{3007}')
    ||| c == '\u{303B}'
    ||| ('\u{3041}' <= c && c <= '\u{3096}')
    ||| ('\u{309D}' <= c && c <= '\u{309E}')
    ||| ('\u{30A1}' <= c && c <= '\u{30FA}')
    ||| c == '\u{30FC}'
    ||| ('\u{FF10}' <= c && c <= '\u{FF19}')
    ||| ('\u{FF21}' <= c && c <= '\u{FF3A}')
    ||| ('\u{FF41}' <= c && c <= '\u{FF5A}')
    ||| ('\u{FF66}' <= c && c <= '\u{FF9D}')
    ||| ('\u{2E80}' <= c && c <= '\u{2E99}')
    ||| ('\u{2E9B}' <= c && c <= '\u{2EF3}')
    ||| ('\u{2F00}' <= c && c <= '\u{2FD5}')
    ||| ('\u{3400}' <= c && c <= '\u{4DBF}')
    ||| ('\u{4E00}' <= c && c <= '\u{9FFF}')
    ||| ('\u{FA0E}' <= c && c <= '\u{FA0F}')
    ||| c == '\u{FA11}'
    ||| ('\u{FA13}' <= c && c <= '\u{FA14}')
    ||| c == '\u{FA1F}' || c == '\u{FA21}'
    ||| ('\u{FA23}' <= c && c <= '\u{FA24}')
    ||| ('\u{FA27}' <= c && c <= '\u{FA29}')
    ||| ('\u{20000}' <= c && c <= '\u{2A6DF}')
    ||| ('\u{2A700}' <= c && c <= '\u{2B81D}')
    ||| ('\u{2B820}' <= c && c <= '\u{2CEAD}')
    ||| ('\u{2CEB0}' <= c && c <= '\u{2EBE0}')
    ||| ('\u{2EBF0}' <= c && c <= '\u{2EE5D}')
    ||| ('\u{30000}' <= c && c <= '\u{3134A}')
    ||| ('\u{31350}' <= c && c <= '\u{33479}')
}

/// How many characters of `s` texthooker-ui counts.
pub open spec fn counted_len(s: Seq<char>) -> nat {
    s.filter(|c: char| counted(c)).len()
}

/// True for codepoints texthooker-ui keeps.
pub fn is_counted(c: char) -> (r: bool)
    ensures
        r == counted(c),
{
    ('0' <= c && c <= '9') || ('A' <= c && c <= 'Z') || ('a' <= c && c <= 'z')
        || c == '\u{25CB}' || c == '\u{25EF}'
        || ('\u{3005}' <= c && c <= '\u{3007}')
        || c == '\u{303B}'
        || ('\u{3041}' <= c && c <= '\u{3096}')
        || ('\u{309D}' <= c && c <= '\u{309E}')
        || ('\u{30A1}' <= c && c <= '\u{30FA}')
        || c == '\u{30FC}'
        || ('\u{FF10}' <= c && c <= '\u{FF19}')
        || ('\u{FF21}' <= c && c <= '\u{FF3A}')
        || ('\u{FF41}' <= c && c <= '\u{FF5A}')
        || ('\u{FF66}' <= c && c <= '\u{FF9D}')
        || ('\u{2E80}' <= c && c <= '\u{2E99}')
        || ('\u{2E9B}' <= c && c <= '\u{2EF3}')
        || ('\u{2F00}' <= c && c <= '\u{2FD5}')
        || ('\u{3400}' <= c && c <= '\u{4DBF}')
        || ('\u{4E00}' <= c && c <= '\u{9FFF}')
        || ('\u{FA0E}' <= c && c <= '\u{FA0F}')
        || c == '\u{FA11}'
        || ('\u{FA13}' <= c && c <= '\u{FA14}')
        || c == '\u{FA1F}' || c == '\u{FA21}'
        || ('\u{FA23}' <= c && c <= '\u{FA24}')
        || ('\u{FA27}' <= c && c <= '\u{FA29}')
        || ('\u{20000}' <= c && c <= '\u{2A6DF}')
        || ('\u{2A700}' <= c && c <= '\u{2B81D}')
        || ('\u{2B820}' <= c && c <= '\u{2CEAD}')
        || ('\u{2CEB0}' <= c && c <= '\u{2EBE0}')
        || ('\u{2EBF0}' <= c && c <= '\u{2EE5D}')
        || ('\u{30000}' <= c && c <= '\u{3134A}')
        || ('\u{31350}' <= c && c <= '\u{33479}')
}

/// The number of codepoints in `text` that [`is_counted`] keeps.
///
/// A string holds no more characters than bytes, and no more bytes than
/// `isize::MAX`, so the count always fits.
pub fn count_chars(text: &str) -> (n: i64)
    requires
        text@.len() <= i64::MAX,
    ensures
        n == counted_len(text@),
{
    let mut n: i64 = 0;
    for c in it: text.chars()
        invariant
            it.seq() == text@,
            n == counted_len(text@.take(it.index() as int)),
            n <= it.index(),
            text@.len() <= i64::MAX,
    {
        proof {
            let s = text@.take(it.index() as int + 1);
            assert(s.drop_last() == text@.take(it.index() as int));
            reveal(Seq::filter);
            s.drop_last().lemma_filter_len(|c: char| counted(c));
        }
        if is_counted(c) {
            n = n + 1;
        }
    }
    proof { assert(text@.take(text@.len() as int) == text@); }
    n
}

} // verus!

verus! {

/// The ASCII character a fullwidth letter or digit stands for.
pub open spec fn halfwidth(c: char) -> char {
    ((c as u32) - 0xFEE0u32) as char
}

/// A fullwidth letter or digit counts exactly as its ASCII counterpart does,
/// and both count: ３ is as much a character of the line as 3.
pub proof fn fullwidth_alphanumerics_count_like_ascii(c: char)
    requires
        ('\u{FF10}' <= c && c <= '\u{FF19}') || ('\u{FF21}' <= c && c <= '\u{FF3A}') || ('\u{FF41}' <= c && c <= '\u{FF5A}'),
    ensures
        counted(c),
        counted(halfwidth(c)),
{
    assert(('0' <= halfwidth(c) && halfwidth(c) <= '9') || ('A' <= halfwidth(c) && halfwidth(c) <= 'Z')
        || ('a' <= halfwidth(c) && halfwidth(c) <= 'z'));
}

proof fn lemma_all_kept(s: Seq<char>)
    requires
        forall|i: int| 0 <= i < s.len() ==> ('\u{FF10}' <= #[trigger] s[i] && s[i] <= '\u{FF19}'),
    ensures
        counted_len(s) == s.len(),
        s.filter(|c: char| counted(c)) == s,
    decreases s.len(),
{
    reveal(Seq::filter);
    if s.len() > 0 {
        lemma_all_kept(s.drop_last());
        let c = s.last();
        assert('\u{FF10}' <= s[s.len() - 1] && s[s.len() - 1] <= '\u{FF19}');
        assert(counted(c));
        assert(s.drop_last().push(c) =~= s);
    }
}

/// A line of fullwidth digits counts one character per digit.
pub proof fn fullwidth_digits_all_count(s: Seq<char>)
    requires
        forall|i: int| 0 <= i < s.len() ==> ('\u{FF10}' <= #[trigger] s[i] && s[i] <= '\u{FF19}'),
    ensures
        counted_len(s) == s.len(),
{
    lemma_all_kept(s);
}

} // verus!
