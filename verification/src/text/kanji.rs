//! Which codepoints are kanji, and the shape of what the reference tables
//! record about one.
use vstd::prelude::*;

verus! {

/// CJK unified ideographs — the ranges the character count keeps, minus kana,
/// radicals and latin. Iteration marks (々〆) are not kanji here: they stand
/// in for a kanji rather than being one.
pub open spec fn kanji_char(c: char) -> bool {
    ||| ('\u{3400}' <= c && c <= '\u{4DBF}')
    ||| ('\u{4E00}' <= c && c <= '\u{9FFF}')
    ||| ('\u{FA0E}' <= c && c <= '\u{FA0F}')
    ||| c == '\u{FA11}'
    ||| ('\u{FA13}' <= c && c <= '\u{FA14}')
    ||| c == '\u{FA1F}' || c == '\u{FA21}'
    ||| ('\u{FA23}' <= c && c <= '\u{FA24}')
    ||| ('\u{FA27}' <= c && c <= '\u{FA29}')
    ||| ('\u{20000}' <= c && c <= '\u{2A6DF}')
    ||| ('\u{2A700}' <= c && c <= '\u{2B81D}')
    ||| ('\u{2B820}' <= c && c <= '\u{2CEAD}')
    ||| ('\u{2CEB0}' <= c && c <= '\u{2EBE0}')
    ||| ('\u{2EBF0}' <= c && c <= '\u{2EE5D}')
    ||| ('\u{30000}' <= c && c <= '\u{3134A}')
    ||| ('\u{31350}' <= c && c <= '\u{33479}')
}

/// True for CJK unified ideographs — the ranges the character count keeps,
/// minus kana, radicals and latin.
pub fn is_kanji(c: char) -> (r: bool)
    ensures
        r == kanji_char(c),
{
    ('\u{3400}' <= c && c <= '\u{4DBF}') || ('\u{4E00}' <= c && c <= '\u{9FFF}')
        || ('\u{FA0E}' <= c && c <= '\u{FA0F}') || c == '\u{FA11}'
        || ('\u{FA13}' <= c && c <= '\u{FA14}') || c == '\u{FA1F}' || c == '\u{FA21}'
        || ('\u{FA23}' <= c && c <= '\u{FA24}') || ('\u{FA27}' <= c && c <= '\u{FA29}')
        || ('\u{20000}' <= c && c <= '\u{2A6DF}') || ('\u{2A700}' <= c && c <= '\u{2B81D}')
        || ('\u{2B820}' <= c && c <= '\u{2CEAD}') || ('\u{2CEB0}' <= c && c <= '\u{2EBE0}')
        || ('\u{2EBF0}' <= c && c <= '\u{2EE5D}') || ('\u{30000}' <= c && c <= '\u{3134A}')
        || ('\u{31350}' <= c && c <= '\u{33479}')
}

/// Every kanji is a character the count keeps: the two ask one question.
pub proof fn kanji_are_counted(c: char)
    ensures
        kanji_char(c) ==> crate::text::chars::counted(c),
{
}

/// Whether every character of `s` is a kanji (true of the empty string).
pub fn all_kanji(s: &str) -> (r: bool)
    ensures
        r == forall|i: int| 0 <= i < s@.len() ==> kanji_char(#[trigger] s@[i]),
{
    let mut all = true;
    for c in it: s.chars()
        invariant
            it.seq() == s@,
            all == forall|i: int| 0 <= i < it.index() ==> kanji_char(#[trigger] s@[i]),
    {
        if !is_kanji(c) {
            all = false;
        }
    }
    all
}

/// Whether some character of `s` is a kanji.
pub fn any_kanji(s: &str) -> (r: bool)
    ensures
        r == exists|i: int| 0 <= i < s@.len() && kanji_char(#[trigger] s@[i]),
{
    let mut any = false;
    for c in it: s.chars()
        invariant
            it.seq() == s@,
            any == exists|i: int| 0 <= i < it.index() && kanji_char(#[trigger] s@[i]),
    {
        if is_kanji(c) {
            any = true;
        }
    }
    any
}

/// What the reference table knows about one kanji.
#[derive(Debug, Clone, Copy, PartialEq, Eq)]
pub struct KanjiInfo {
    /// 1-6 primary school, 8 the rest of the jōyō set, 9-10 jinmeiyō, `None`
    /// unlisted.
    pub grade: Option<u8>,
    pub strokes: Option<u8>,
    /// Rank in a newspaper corpus, 1 = most common. `None` outside the top 2501.
    pub freq: Option<u16>,
    /// One English gloss, enough to recognise the kanji in a tooltip.
    pub gloss: &'static str,
}

/// How common a kanji is in written Japanese at large, from the BCCWJ
/// character table.
#[derive(Debug, Clone, Copy, PartialEq, Eq)]
pub struct BccwjFreq {
    /// Rank among the kanji of the corpus, 1 = commonest.
    pub rank: u16,
    /// Occurrences in the corpus.
    pub count: u32,
}

/// The jōyō grades, in teaching order. 8 is the secondary-school remainder.
pub const JOYO_GRADES: [u8; 7] = [1, 2, 3, 4, 5, 6, 8];

} // verus!
