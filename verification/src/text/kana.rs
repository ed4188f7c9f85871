//! Kana normalization — one spelling of a reading, so two sources agree.
//!
//! Readings arrive in two alphabets. Sudachi's reading form is katakana (ヨム),
//! every Yomitan dictionary's reading field is hiragana (よむ). The vocabulary
//! ledger is keyed on `(headword, reading)` and joined against the
//! dictionaries by that key, so one of the two has to give. Hiragana wins.
//!
//! This is a codepoint shift and nothing more — no long-vowel expansion, no
//! romaji. ー stays ー, because in a katakana reading it *is* the reading.
use vstd::prelude::*;
use crate::strings::{char_from_u32, push_char};

verus! {

/// The main katakana block ァ..ヶ, the part that has a hiragana counterpart.
pub open spec fn is_shifted_katakana(c: char) -> bool {
    '\u{30A1}' <= c && c <= '\u{30F6}'
}

/// One character folded to hiragana: a katakana of the main block moves down
/// by 0x60, anything else stays.
pub open spec fn hiragana_of(c: char) -> char {
    if is_shifted_katakana(c) {
        ((c as u32) - 0x60) as char
    } else {
        c
    }
}

/// A string folded to hiragana, character by character.
pub open spec fn hiragana(s: Seq<char>) -> Seq<char> {
    s.map_values(|c: char| hiragana_of(c))
}

/// Hiragana ぁ..ゖ.
pub open spec fn hiragana_char(c: char) -> bool {
    '\u{3041}' <= c && c <= '\u{3096}'
}

/// A kana of either alphabet, or one of the marks a kana spelling carries:
/// ー, ・, the voicing marks ﾞﾟ゛゜.
pub open spec fn kana_char(c: char) -> bool {
    ||| hiragana_char(c)
    ||| is_shifted_katakana(c)
    ||| c == 'ー' || c == '・' || c == '\u{FF9E}' || c == '\u{FF9F}'
    ||| c == '\u{309B}' || c == '\u{309C}'
}

/// Non-empty, and every character a [`kana_char`].
pub open spec fn all_kana(s: Seq<char>) -> bool {
    s.len() > 0 && forall|i: int| 0 <= i < s.len() ==> kana_char(#[trigger] s[i])
}

/// The small ゃゅょゎ of either alphabet: they ride on the kana before them.
pub open spec fn small_glide(c: char) -> bool {
    c == 'ゃ' || c == 'ゅ' || c == 'ょ' || c == 'ャ' || c == 'ュ' || c == 'ョ' || c == 'ゎ' || c == 'ヮ'
}

/// Beats of speech in a reading.
pub open spec fn mora_count(s: Seq<char>) -> nat {
    s.filter(|c: char| !small_glide(c)).len()
}

/// Katakana → hiragana, leaving everything else (kanji, ー, ヶ's neighbours,
/// punctuation, latin) exactly as it was.
///
/// Only the main block ァ..ヶ is shifted. ヷヸヹヺ and the halfwidth forms have
/// no hiragana counterpart to shift to and are left alone rather than mangled.
pub fn to_hiragana(s: &str) -> (r: String)
    ensures
        r@ == hiragana(s@),
{
    let mut out = String::new();
    for c in it: s.chars()
        invariant
            it.seq() == s@,
            out@ == hiragana(s@.take(it.index() as int)),
    {
        let folded = if '\u{30A1}' <= c && c <= '\u{30F6}' {
            char_from_u32((c as u32) - 0x60)
        } else {
            c
        };
        push_char(&mut out, folded);
        proof {
            assert(hiragana(s@.take(it.index() as int + 1)) =~= hiragana(s@.take(it.index() as int)).push(folded));
        }
    }
    proof { assert(s@.take(s@.len() as int) =~= s@); }
    out
}

/// Whether a character is hiragana.
///
/// A one-character piece of a compound may stand as a word when it is
/// hiragana (a lone と is a particle), never when it is katakana.
pub fn is_hiragana(c: char) -> (r: bool)
    ensures
        r == hiragana_char(c),
{
    '\u{3041}' <= c && c <= '\u{3096}'
}

/// Whether a character may stand in a kana spelling.
pub fn is_kana_char(c: char) -> (r: bool)
    ensures
        r == kana_char(c),
{
    ('\u{3041}' <= c && c <= '\u{3096}') || ('\u{30A1}' <= c && c <= '\u{30F6}') || c == 'ー'
        || c == '・' || c == '\u{FF9E}' || c == '\u{FF9F}' || c == '\u{309B}' || c == '\u{309C}'
}

/// Whether every character is kana (either alphabet), ー and ・ included.
///
/// For a kana-only word the headword and the reading are the same string, so
/// the ledger stores the reading empty rather than duplicated.
pub fn is_all_kana(s: &str) -> (r: bool)
    ensures
        r == all_kana(s@),
{
    let mut all = true;
    let mut any = false;
    for c in it: s.chars()
        invariant
            it.seq() == s@,
            any == (it.index() > 0),
            all == forall|i: int| 0 <= i < it.index() ==> kana_char(#[trigger] s@[i]),
    {
        any = true;
        if !is_kana_char(c) {
            all = false;
        }
    }
    any && all
}

/// Whether some character is hiragana.
pub fn has_hiragana(s: &str) -> (r: bool)
    ensures
        r == exists|i: int| 0 <= i < s@.len() && hiragana_char(#[trigger] s@[i]),
{
    let mut found = false;
    for c in it: s.chars()
        invariant
            it.seq() == s@,
            found == exists|i: int| 0 <= i < it.index() && hiragana_char(#[trigger] s@[i]),
    {
        if is_hiragana(c) {
            found = true;
        }
    }
    found
}

/// Whether some character is main-block katakana.
pub fn has_katakana(s: &str) -> (r: bool)
    ensures
        r == exists|i: int| 0 <= i < s@.len() && is_shifted_katakana(#[trigger] s@[i]),
{
    let mut found = false;
    for c in it: s.chars()
        invariant
            it.seq() == s@,
            found == exists|i: int| 0 <= i < it.index() && is_shifted_katakana(#[trigger] s@[i]),
    {
        if '\u{30A1}' <= c && c <= '\u{30F6}' {
            found = true;
        }
    }
    found
}

/// Whether every character is katakana, ー and ・ included.
pub fn is_all_katakana(s: &str) -> (r: bool)
    ensures
        r == (all_kana(s@) && !exists|i: int| 0 <= i < s@.len() && hiragana_char(#[trigger] s@[i])),
{
    is_all_kana(s) && !has_hiragana(s)
}

/// Whether every character is hiragana, ー and ・ included.
pub fn is_all_hiragana(s: &str) -> (r: bool)
    ensures
        r == (all_kana(s@) && !exists|i: int| 0 <= i < s@.len() && is_shifted_katakana(#[trigger] s@[i])),
{
    is_all_kana(s) && !has_katakana(s)
}

/// Beats of speech. A small ゃゅょ rides on the kana before it; everything else,
/// っ and ん included, is its own beat.
pub fn morae(reading: &str) -> (n: usize)
    ensures
        n == mora_count(reading@),
{
    let total = reading.unicode_len();
    let mut n: usize = 0;
    for c in it: reading.chars()
        invariant
            it.seq() == reading@,
            n == mora_count(reading@.take(it.index() as int)),
            n <= it.index(),
            total == reading@.len(),
    {
        proof {
            let s = reading@.take(it.index() as int + 1);
            assert(s.drop_last() == reading@.take(it.index() as int));
            reveal(Seq::filter);
            s.drop_last().lemma_filter_len(|c: char| !small_glide(c));
        }
        if !(c == 'ゃ' || c == 'ゅ' || c == 'ょ' || c == 'ャ' || c == 'ュ' || c == 'ョ' || c == 'ゎ' || c == 'ヮ') {
            n = n + 1;
        }
    }
    proof { assert(reading@.take(reading@.len() as int) == reading@); }
    n
}

} // verus!
