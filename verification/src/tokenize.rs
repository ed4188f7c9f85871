//! The tokenizer's rules over a stream of tokens: which parts of speech are
//! content words, which strings are shreds rather than words, the one edit the
//! tokenizer makes to its input, the stammer filter, and the master
//! dictionary's answer to "is this `(headword, reading)` a word".
use vstd::prelude::*;
use vstd::hash_set::StringHashSet;
use crate::strings::{chars_of, first_char, push_char, same, starts_with};
use crate::tables::Groups;
use crate::text::kana::{all_kana, hiragana, is_all_kana, to_hiragana};
use crate::text::kanji::{is_kanji, kanji_char};

pub mod rules;
pub mod trace;

use trace::{grew_by_one, Step, Trace};

verus! {

broadcast use vstd::seq_lib::group_seq_properties;

/// One token of the analysis.
#[derive(Debug, Clone, PartialEq, Eq)]
pub struct Token {
    pub surface: String,
    /// The word's canonical written form: Sudachi's *normalized* form, not its
    /// dictionary form, so いう/言う and できる/出来る are one word.
    pub base_form: String,
    pub reading: String,
    /// Top-level part of speech (名詞, 動詞, …).
    pub pos: String,
    /// Whether Sudachi calls this a proper noun (固有名詞). A name is not
    /// vocabulary.
    pub proper_noun: bool,
    /// Whether Sudachi calls this 非自立可能 — a word that can be the auxiliary
    /// half of a compound predicate (て**みる**, て**いた**).
    pub subsidiary: bool,
    /// Whether the surface is a *stem* rather than the word itself — 続い for
    /// 続く, 許せ for 許す.
    pub inflected: bool,
}

impl Token {
    /// A field-for-field copy.
    pub fn duplicate(&self) -> (r: Token)
        ensures
            r == *self,
    {
        Token {
            surface: self.surface.clone(),
            base_form: self.base_form.clone(),
            reading: self.reading.clone(),
            pos: self.pos.clone(),
            proper_noun: self.proper_noun,
            subsidiary: self.subsidiary,
            inflected: self.inflected,
        }
    }
}

/// Anything that turns a line into tokens.
pub trait Tokenizer: Send + Sync {
    fn tokenize(&self, text: &str) -> Result<Vec<Token>, TokenizeError>;
}

/// Why a line could not be tokenized.
#[derive(Debug)]
pub enum TokenizeError {
    Failed(String),
}

/// Noun, pronoun, verb, adjective, adjectival noun or adverb. 代名詞 is a
/// top-level tag of its own, not a subtype of 名詞.
pub open spec fn content_pos(pos: Seq<char>) -> bool {
    ||| pos == "名詞"@
    ||| pos == "代名詞"@
    ||| pos == "動詞"@
    ||| pos == "形容詞"@
    ||| pos == "形状詞"@
    ||| pos == "副詞"@
}

/// Returns true if the part-of-speech tag represents a content word (noun,
/// pronoun, verb, adjective, adjectival noun, adverb).
pub fn is_content_word(pos: &str) -> (r: bool)
    ensures
        r == content_pos(pos@),
{
    same(pos, "名詞") || same(pos, "代名詞") || same(pos, "動詞") || same(pos, "形容詞")
        || same(pos, "形状詞") || same(pos, "副詞")
}

/// An ASCII or fullwidth digit.
pub open spec fn digit(c: char) -> bool {
    ('0' <= c && c <= '9') || ('\u{FF10}' <= c && c <= '\u{FF19}')
}

/// A number written in figures: non-empty and nothing but digits.
pub open spec fn figures(s: Seq<char>) -> bool {
    s.len() > 0 && forall|i: int| 0 <= i < s.len() ==> digit(#[trigger] s[i])
}

/// A number written in figures, which Sudachi tags 名詞 and the ledger would
/// otherwise take for vocabulary. Figures only: a numeral written in kanji is
/// an ordinary term.
pub fn is_figures(surface: &str) -> (r: bool)
    ensures
        r == figures(surface@),
{
    let mut all = true;
    let mut any = false;
    for c in it: surface.chars()
        invariant
            it.seq() == surface@,
            any == (it.index() > 0),
            all == forall|i: int| 0 <= i < it.index() ==> digit(#[trigger] surface@[i]),
    {
        any = true;
        if !(('0' <= c && c <= '9') || ('\u{FF10}' <= c && c <= '\u{FF19}')) {
            all = false;
        }
    }
    any && all
}

/// っ, ん and every small kana, of either alphabet — the small ゎ ゕ ゖ, ヮ ヵ
/// ヶ and the small katakana extensions ㇰ..ㇿ among them: no Japanese word
/// begins with one.
pub open spec fn onset_shred(c: char) -> bool {
    ||| c == 'っ' || c == 'ん' || c == 'ゃ' || c == 'ゅ' || c == 'ょ'
    ||| c == 'ぁ' || c == 'ぃ' || c == 'ぅ' || c == 'ぇ' || c == 'ぉ'
    ||| c == 'ゎ' || c == 'ゕ' || c == 'ゖ'
    ||| c == 'ッ' || c == 'ン' || c == 'ャ' || c == 'ュ' || c == 'ョ'
    ||| c == 'ァ' || c == 'ィ' || c == 'ゥ' || c == 'ェ' || c == 'ォ'
    ||| c == 'ヮ' || c == 'ヵ' || c == 'ヶ'
    ||| ('\u{31F0}' <= c && c <= '\u{31FF}')
}

pub open spec fn impossible_onset(s: Seq<char>) -> bool {
    s.len() > 0 && onset_shred(s[0])
}

/// No Japanese word begins with っ, ん or a small kana — a token that does is a
/// shred off an out-of-vocabulary path, not a word.
pub fn has_impossible_onset(surface: &str) -> (r: bool)
    ensures
        r == impossible_onset(surface@),
{
    match first_char(surface) {
        Some(c) => c == 'っ' || c == 'ん' || c == 'ゃ' || c == 'ゅ' || c == 'ょ' || c == 'ぁ'
            || c == 'ぃ' || c == 'ぅ' || c == 'ぇ' || c == 'ぉ' || c == 'ッ' || c == 'ン'
            || c == 'ャ' || c == 'ュ' || c == 'ョ' || c == 'ァ' || c == 'ィ' || c == 'ゥ'
            || c == 'ェ' || c == 'ォ' || c == 'ゎ' || c == 'ゕ' || c == 'ゖ' || c == 'ヮ'
            || c == 'ヵ' || c == 'ヶ' || ('\u{31F0}' <= c && c <= '\u{31FF}'),
        None => false,
    }
}

/// A small ゃゅょ of either alphabet.
pub open spec fn small_y(c: char) -> bool {
    c == 'ゃ' || c == 'ゅ' || c == 'ょ' || c == 'ャ' || c == 'ュ' || c == 'ョ'
}

/// One beat of speech: one character, optionally followed by a small ゃゅょ.
pub open spec fn one_mora(s: Seq<char>) -> bool {
    s.len() == 1 || (s.len() == 2 && small_y(s[1]))
}

/// One beat of speech: a kana, optionally followed by a small ゃゅょ.
pub fn is_one_mora(reading: &str) -> (r: bool)
    ensures
        r == one_mora(reading@),
{
    let cs = chars_of(reading);
    cs.len() == 1 || (cs.len() == 2 && (cs[1] == 'ゃ' || cs[1] == 'ゅ' || cs[1] == 'ょ'
        || cs[1] == 'ャ' || cs[1] == 'ュ' || cs[1] == 'ョ'))
}

/// A character a word can begin with, for an っ before it to double: kana
/// ぁ..ん or ァ..ヶ, ー, or a kanji (突っ込む, 真っ黒).
pub open spec fn word_start(c: char) -> bool {
    ('\u{3041}' <= c && c <= '\u{3093}') || ('\u{30A1}' <= c && c <= '\u{30F6}') || c == 'ー'
        || kanji_char(c)
}

/// Is there a word after this っ for it to double the consonant of?
pub fn starts_a_word(c: char) -> (r: bool)
    ensures
        r == word_start(c),
{
    ('\u{3041}' <= c && c <= '\u{3093}') || ('\u{30A1}' <= c && c <= '\u{30F6}') || c == 'ー'
        || is_kanji(c)
}

pub open spec fn sokuon(c: char) -> bool {
    c == 'っ' || c == 'ッ'
}

/// The first character at or after `j` that is not an っ, or a space when the
/// line ends first.
pub open spec fn after_sokuon_run(s: Seq<char>, j: int) -> char
    decreases s.len() - j,
{
    if j < 0 || j >= s.len() {
        ' '
    } else if sokuon(s[j]) {
        after_sokuon_run(s, j + 1)
    } else {
        s[j]
    }
}

/// An emphatic っ: one with no word after it (past any further っ) to double.
pub open spec fn emphatic(s: Seq<char>, i: int) -> bool {
    sokuon(s[i]) && !word_start(after_sokuon_run(s, i + 1))
}

/// The first `n` characters of `s` with every emphatic っ removed.
pub open spec fn stripped_prefix(s: Seq<char>, n: int) -> Seq<char>
    decreases n,
{
    if n <= 0 {
        Seq::empty()
    } else if emphatic(s, n - 1) {
        stripped_prefix(s, n - 1)
    } else {
        stripped_prefix(s, n - 1).push(s[n - 1])
    }
}

pub open spec fn stripped(s: Seq<char>) -> Seq<char> {
    stripped_prefix(s, s.len() as int)
}

/// The positions of the first `n` characters of `s` that stripping keeps.
pub open spec fn kept_positions(s: Seq<char>, n: int) -> Seq<int>
    decreases n,
{
    if n <= 0 {
        Seq::empty()
    } else if emphatic(s, n - 1) {
        kept_positions(s, n - 1)
    } else {
        kept_positions(s, n - 1).push(n - 1)
    }
}

proof fn lemma_kept_positions(s: Seq<char>, n: int)
    requires
        0 <= n <= s.len(),
    ensures
        stripped_prefix(s, n).len() == kept_positions(s, n).len(),
        forall|k: int| 0 <= k < kept_positions(s, n).len() ==> {
            let i = #[trigger] kept_positions(s, n)[k];
            0 <= i < n && stripped_prefix(s, n)[k] == s[i]
        },
        forall|a: int, b: int| 0 <= a < b < kept_positions(s, n).len() ==>
            kept_positions(s, n)[a] < kept_positions(s, n)[b],
        forall|i: int| 0 <= i < n && !kept_positions(s, n).contains(i) ==> sokuon(#[trigger] s[i]),
    decreases n,
{
    if n > 0 {
        lemma_kept_positions(s, n - 1);
        let prev = kept_positions(s, n - 1);
        if !emphatic(s, n - 1) {
            let cur = kept_positions(s, n);
            assert(cur == prev.push(n - 1));
            assert(cur[prev.len() as int] == n - 1);
            assert forall|i: int| 0 <= i < n && !cur.contains(i) implies sokuon(#[trigger] s[i]) by {
                if i < n - 1 && prev.contains(i) {
                    let k = choose|k: int| 0 <= k < prev.len() && prev[k] == i;
                    assert(cur[k] == i);
                }
            }
        }
    }
}

/// Stripping only ever removes a っ: what is left is the line's characters at
/// increasing positions, and every position dropped held a っ — so offsets
/// can be recovered against the original line with one forward cursor.
pub proof fn stripping_keeps_a_subsequence(s: Seq<char>)
    ensures
        stripped(s).len() == kept_positions(s, s.len() as int).len(),
        forall|k: int| 0 <= k < stripped(s).len() ==> {
            let i = #[trigger] kept_positions(s, s.len() as int)[k];
            0 <= i < s.len() && stripped(s)[k] == s[i]
        },
        forall|a: int, b: int| 0 <= a < b < stripped(s).len() ==>
            kept_positions(s, s.len() as int)[a] < kept_positions(s, s.len() as int)[b],
        forall|i: int| 0 <= i < s.len() && !kept_positions(s, s.len() as int).contains(i) ==> sokuon(#[trigger] s[i]),
{
    lemma_kept_positions(s, s.len() as int);
}

/// The first position at or after `j` that is not an っ, or the end.
pub open spec fn run_end(s: Seq<char>, j: int) -> int
    decreases s.len() - j,
{
    if j < 0 || j >= s.len() {
        s.len() as int
    } else if sokuon(s[j]) {
        run_end(s, j + 1)
    } else {
        j
    }
}

proof fn lemma_run_end(s: Seq<char>, j: int)
    requires
        0 <= j <= s.len(),
    ensures
        j <= run_end(s, j) <= s.len(),
        forall|q: int| j <= q < run_end(s, j) ==> sokuon(#[trigger] s[q]),
        run_end(s, j) < s.len() ==> !sokuon(s[run_end(s, j)]) && after_sokuon_run(s, j) == s[run_end(s, j)],
        run_end(s, j) == s.len() ==> after_sokuon_run(s, j) == ' ',
        forall|p: int| j <= p <= run_end(s, j) && p < s.len() ==> run_end(s, p) == run_end(s, j),
    decreases s.len() - j,
{
    if j < s.len() && sokuon(s[j]) {
        lemma_run_end(s, j + 1);
    }
}

/// Every position stripping keeps, and only those, in increasing order.
proof fn lemma_kept_exactly(s: Seq<char>, n: int)
    requires
        0 <= n <= s.len(),
    ensures
        forall|p: int| 0 <= p < n ==> (kept_positions(s, n).contains(p) <==> !emphatic(s, p)),
    decreases n,
{
    if n > 0 {
        lemma_kept_exactly(s, n - 1);
        lemma_kept_positions(s, n - 1);
        let prev = kept_positions(s, n - 1);
        assert forall|p: int| 0 <= p < n implies (kept_positions(s, n).contains(p) <==> !emphatic(s, p)) by {
            if !emphatic(s, n - 1) {
                assert(kept_positions(s, n) == prev.push(n - 1));
                if p < n - 1 && kept_positions(s, n).contains(p) {
                    let k = choose|k: int| 0 <= k < kept_positions(s, n).len() && kept_positions(s, n)[k] == p;
                    if k == prev.len() {
                        assert(kept_positions(s, n)[k] == n - 1);
                    } else {
                        assert(prev[k] == p);
                    }
                }
                if p < n - 1 && prev.contains(p) {
                    let k = choose|k: int| 0 <= k < prev.len() && prev[k] == p;
                    assert(kept_positions(s, n)[k] == p);
                }
                if p == n - 1 {
                    assert(kept_positions(s, n)[prev.len() as int] == p);
                }
            } else {
                if p == n - 1 && prev.contains(p) {
                    let k = choose|k: int| 0 <= k < prev.len() && prev[k] == p;
                }
            }
        }
    }
}

/// Positions kept one after another in the line sit one after another in
/// what stripping leaves.
proof fn lemma_kept_consecutive(s: Seq<char>, k: int, i: int, e: int)
    requires
        0 <= i <= e < s.len(),
        0 <= k < kept_positions(s, s.len() as int).len(),
        kept_positions(s, s.len() as int)[k] == i,
        forall|p: int| i <= p <= e ==> !emphatic(s, p),
    ensures
        k + (e - i) < kept_positions(s, s.len() as int).len(),
        forall|d: int| 0 <= d <= e - i ==> #[trigger] kept_positions(s, s.len() as int)[k + d] == i + d,
    decreases e - i,
{
    let n = s.len() as int;
    let kp = kept_positions(s, n);
    lemma_kept_positions(s, n);
    lemma_kept_exactly(s, n);
    if e > i {
        assert(!emphatic(s, i + 1));
        assert(0 <= i + 1 < n ==> (kp.contains(i + 1) <==> !emphatic(s, i + 1)));
        assert(kp.contains(i + 1));
        let m = choose|m: int| 0 <= m < kp.len() && kp[m] == i + 1;
        if m < k {
            assert(kp[m] < kp[k]);
        } else if m > k + 1 {
            assert(kp[k] < kp[k + 1] && kp[k + 1] < kp[m]);
        }
        assert(m == k + 1);
        lemma_kept_consecutive(s, k + 1, i + 1, e);
        assert forall|d: int| 0 <= d <= e - i implies #[trigger] kp[k + d] == i + d by {
            if d > 0 {
                assert(kp[(k + 1) + (d - 1)] == (i + 1) + (d - 1));
            }
        }
    }
}

proof fn lemma_after_run_in_stripped(t: Seq<char>, j: int, last: int, c: char)
    requires
        0 <= j <= last < t.len(),
        t[last] == c,
        !sokuon(c),
        forall|q: int| j <= q < last ==> sokuon(#[trigger] t[q]),
    ensures
        after_sokuon_run(t, j) == c,
    decreases last - j,
{
    if j < last {
        lemma_after_run_in_stripped(t, j + 1, last, c);
    }
}

/// Nothing stripping leaves is an emphatic っ.
proof fn lemma_stripped_has_no_emphatic(s: Seq<char>, k: int)
    requires
        0 <= k < stripped(s).len(),
    ensures
        !emphatic(stripped(s), k),
{
    let n = s.len() as int;
    let t = stripped(s);
    let kp = kept_positions(s, n);
    lemma_kept_positions(s, n);
    lemma_kept_exactly(s, n);
    let i = kp[k];
    assert(t[k] == s[i]);
    if sokuon(t[k]) {
        assert(kp.contains(i));
        assert(!emphatic(s, i));
        lemma_run_end(s, i + 1);
        let e = run_end(s, i + 1);
        if e == n {
            assert(!word_start(' '));
        }
        assert(e < n);
        assert forall|p: int| i <= p <= e implies !emphatic(s, p) by {
            if p > i && p < e {
                assert(sokuon(s[p]));
                lemma_run_end(s, p + 1);
                assert(run_end(s, p + 1) == e);
                assert(after_sokuon_run(s, p + 1) == after_sokuon_run(s, i + 1));
            }
        }
        lemma_kept_consecutive(s, k, i, e);
        let last = k + (e - i);
        assert(kp[last] == e);
        assert(t[last] == s[e]);
        assert forall|q: int| k + 1 <= q < last implies sokuon(#[trigger] t[q]) by {
            assert(kp[k + (q - k)] == i + (q - k));
            assert(t[q] == s[i + (q - k)]);
        }
        lemma_after_run_in_stripped(t, k + 1, last, s[e]);
    }
}

proof fn lemma_strip_nothing(t: Seq<char>, m: int)
    requires
        0 <= m <= t.len(),
        forall|k: int| 0 <= k < t.len() ==> !emphatic(t, k),
    ensures
        stripped_prefix(t, m) == t.take(m),
    decreases m,
{
    if m > 0 {
        lemma_strip_nothing(t, m - 1);
        assert(t.take(m) =~= t.take(m - 1).push(t[m - 1]));
    }
}

/// Stripping twice leaves what stripping once leaves: no っ that survives is
/// emphatic, since it survived for the word after it, and that word survives
/// too.
pub proof fn stripping_is_idempotent(s: Seq<char>)
    ensures
        stripped(stripped(s)) == stripped(s),
{
    let t = stripped(s);
    assert forall|k: int| 0 <= k < t.len() implies !emphatic(t, k) by {
        lemma_stripped_has_no_emphatic(s, k);
    }
    lemma_strip_nothing(t, t.len() as int);
    assert(t.take(t.len() as int) =~= t);
}

/// Remove the emphatic っ — the one written for a hard stop at the end of an
/// utterance, not to double a consonant: 早くっ, ですっ, ごめんなさいっ.
///
/// A geminate is a っ with a *word* after it to double, and is never touched —
/// kana (行った, ちょっと) or kanji alike (突っ込む, ぶっ殺す). Only a っ with
/// nothing but punctuation, further っ or the end of the line after it is
/// emphatic. Every character removed is a っ, so what is left is an in-order
/// subsequence of the line.
pub fn strip_emphatic_sokuon(text: &str) -> (r: String)
    ensures
        r@ == stripped(text@),
{
    let cs = chars_of(text);
    let n = cs.len();
    let mut out = String::new();
    for i in 0..n
        invariant
            cs@ == text@,
            n == cs.len(),
            out@ == stripped_prefix(text@, i as int),
    {
        let c = cs[i];
        let mut keep = true;
        if c == 'っ' || c == 'ッ' {
            let mut j = i + 1;
            while j < n && (cs[j] == 'っ' || cs[j] == 'ッ')
                invariant
                    cs@ == text@,
                    n == cs.len(),
                    i < j <= n,
                    after_sokuon_run(text@, i as int + 1) == after_sokuon_run(text@, j as int),
                decreases n - j,
            {
                j = j + 1;
            }
            let next = if j < n { cs[j] } else { ' ' };
            proof {
                assert(after_sokuon_run(text@, j as int) == next);
            }
            keep = starts_a_word(next);
        }
        if keep {
            push_char(&mut out, c);
        }
    }
    out
}

/// A stammer's leading fragment, as the mora it repeats: one kana that is not
/// a small kana or っ/ん.
pub open spec fn stammer_fragment(t: Token) -> Option<Seq<char>> {
    if t.surface@.len() == 1 && all_kana(t.surface@) && !impossible_onset(t.surface@) {
        Some(hiragana(t.surface@))
    } else {
        None
    }
}

/// Whether tokens `i`, `i + 1`, `i + 2` are a stammer: one kana, a comma, then
/// a word that begins with that same mora in its spelling — or, unless the
/// fragment is a particle, in its reading.
pub open spec fn stammer_at(ts: Seq<Token>, i: int) -> bool {
    &&& 0 <= i && i + 2 < ts.len()
    &&& stammer_fragment(ts[i]) is Some
    &&& ts[i + 1].surface@ == "、"@
    &&& {
        let mora = stammer_fragment(ts[i])->0;
        ||| mora.is_prefix_of(hiragana(ts[i + 2].surface@))
        ||| (ts[i].pos@ != "助詞"@ && mora.is_prefix_of(hiragana(ts[i + 2].reading@)))
    }
}

/// The tokens from `i` on with every stammer's fragment and comma dropped.
pub open spec fn unstuttered(ts: Seq<Token>, i: int) -> Seq<Token>
    decreases ts.len() - i,
{
    if i < 0 || i >= ts.len() {
        Seq::empty()
    } else if stammer_at(ts, i) {
        unstuttered(ts, i + 2)
    } else {
        seq![ts[i]] + unstuttered(ts, i + 1)
    }
}

/// The stammers `drop_stutters` drops from `i` on, each as its fragment and
/// the word it ran into, in order.
pub open spec fn stutter_pairs(ts: Seq<Token>, i: int) -> Seq<(Seq<char>, Seq<char>)>
    decreases ts.len() - i,
{
    if i < 0 || i >= ts.len() {
        Seq::empty()
    } else if stammer_at(ts, i) {
        seq![(ts[i].surface@, ts[i + 2].surface@)] + stutter_pairs(ts, i + 2)
    } else {
        stutter_pairs(ts, i + 1)
    }
}

/// Whether a step records the stammer fragment `p.0` running into `p.1`.
pub open spec fn is_stutter_step(s: Step, p: (Seq<char>, Seq<char>)) -> bool {
    s matches Step::Stutter { fragment, into } && fragment@ == p.0 && into@ == p.1
}

/// The trace after the stammers `ps` were offered to it: one step each, in
/// order, after what it held, while recording; unchanged while not.
pub open spec fn records_stutters(before: Trace, after: Trace, ps: Seq<(Seq<char>, Seq<char>)>) -> bool {
    &&& after.is_on() == before.is_on()
    &&& !before.is_on() ==> after.recorded() == before.recorded()
    &&& before.is_on() ==> {
        &&& after.recorded().len() == before.recorded().len() + ps.len()
        &&& after.recorded().take(before.recorded().len() as int) == before.recorded()
        &&& forall|k: int| 0 <= k < ps.len() ==> is_stutter_step(#[trigger] after.recorded()[before.recorded().len() + k], ps[k])
    }
}

fn stammer_fragment_of(t: &Token) -> (r: Option<String>)
    ensures
        r.is_some() == (stammer_fragment(*t) is Some),
        r matches Some(m) ==> stammer_fragment(*t) == Some(m@),
{
    let cs = chars_of(t.surface.as_str());
    if cs.len() == 1 && is_all_kana(t.surface.as_str()) && !has_impossible_onset(t.surface.as_str()) {
        Some(to_hiragana(t.surface.as_str()))
    } else {
        None
    }
}

fn is_stammer(ts: &Vec<Token>, i: usize) -> (r: bool)
    ensures
        r == stammer_at(ts@, i as int),
{
    if i >= ts.len() || ts.len() - i <= 2 {
        return false;
    }
    let mora = match stammer_fragment_of(&ts[i]) {
        Some(m) => m,
        None => return false,
    };
    if !same(ts[i + 1].surface.as_str(), "、") {
        return false;
    }
    let next = &ts[i + 2];
    let spelled = to_hiragana(next.surface.as_str());
    if starts_with(spelled.as_str(), mora.as_str()) {
        return true;
    }
    let read = to_hiragana(next.reading.as_str());
    !same(ts[i].pos.as_str(), "助詞") && starts_with(read.as_str(), mora.as_str())
}

/// Drop the leading fragment of a stammer: そ、そう / ト、ト、トラウマ.
///
/// Japanese writes a stammer by repeating the first mora with a comma after
/// it, and Sudachi analyses that fragment as whatever word it happens to spell.
/// The pattern is orthographic, so the rule is too. Kana only for the fragment
/// — 木、木材 is not a stammer, and a kanji fragment would be a real word every
/// time. A particle is never dropped on a reading match alone: 「〜か、彼は」
/// is the question particle and かれ.
pub fn drop_stutters(tokens: Vec<Token>, trace: &mut Trace) -> (r: Vec<Token>)
    ensures
        r@ == unstuttered(tokens@, 0),
        final(trace).is_on() == old(trace).is_on(),
        records_stutters(*old(trace), *final(trace), stutter_pairs(tokens@, 0)),
{
    let mut out: Vec<Token> = Vec::new();
    let mut i: usize = 0;
    let ghost mut done: Seq<(Seq<char>, Seq<char>)> = Seq::empty();
    proof { assert(trace.recorded().take(trace.recorded().len() as int) =~= trace.recorded()); }
    while i < tokens.len()
        invariant
            i <= tokens.len(),
            out@ + unstuttered(tokens@, i as int) == unstuttered(tokens@, 0),
            trace.is_on() == old(trace).is_on(),
            done + stutter_pairs(tokens@, i as int) == stutter_pairs(tokens@, 0),
            records_stutters(*old(trace), *trace, done),
        decreases tokens.len() - i,
    {
        if is_stammer(&tokens, i) {
            let fragment = tokens[i].surface.clone();
            let into = tokens[i + 2].surface.clone();
            let ghost want = Step::Stutter { fragment: fragment, into: into };
            let ghost pair = (tokens@[i as int].surface@, tokens@[i as int + 2].surface@);
            let ghost mid = *trace;
            trace.push(move || -> (s: Step)
                ensures
                    s == want,
                { Step::Stutter { fragment, into } });
            proof {
                assert(done.push(pair) + stutter_pairs(tokens@, i as int + 2) =~= done + stutter_pairs(tokens@, i as int));
                let n0 = old(trace).recorded().len() as int;
                if old(trace).is_on() {
                    assert(trace.recorded() == mid.recorded().push(want));
                    assert(trace.recorded().take(n0) =~= mid.recorded().take(n0));
                    assert forall|k: int| 0 <= k < done.push(pair).len() implies
                        is_stutter_step(#[trigger] trace.recorded()[n0 + k], done.push(pair)[k]) by {
                        if k < done.len() {
                            assert(trace.recorded()[n0 + k] == mid.recorded()[n0 + k]);
                        } else {
                            assert(trace.recorded()[n0 + k] == want);
                        }
                    }
                }
            }
            proof { done = done.push(pair); }
            i = i + 2;
        } else {
            let ghost before = out@;
            out.push(tokens[i].duplicate());
            proof {
                assert(out@ + unstuttered(tokens@, i as int + 1) =~= before + unstuttered(tokens@, i as int));
            }
            i = i + 1;
        }
    }
    proof {
        assert(out@ + Seq::<Token>::empty() =~= out@);
        assert(done + Seq::<(Seq<char>, Seq<char>)>::empty() =~= done);
    }
    out
}

} // verus!

verus! {

/// Whether the master lists a `(term, reading)` pair in `entries`, the reading
/// compared in hiragana.
pub open spec fn entry_listed(entries: Seq<(Seq<char>, Seq<char>)>, term: Seq<char>, reading: Seq<char>) -> bool {
    exists|k: int| 0 <= k < entries.len() && (#[trigger] entries[k]).0 == term && hiragana(entries[k].1) == reading
}

/// The master dictionary, asked the only question the affix rule needs: does
/// it list this `(headword, reading)`?
///
/// Keyed the way the ledger's terms are: a kana-only headword stores no
/// reading there, so it matches on the headword alone. The reading folds to
/// hiragana for the same reason.
pub struct MasterWords {
    headwords: StringHashSet,
    pairs: Groups,
}

impl MasterWords {
    pub closed spec fn has_headword(&self, h: Seq<char>) -> bool {
        self.headwords@.contains(h)
    }

    pub closed spec fn has_pair(&self, h: Seq<char>, r: Seq<char>) -> bool {
        self.pairs.of(h).contains(r)
    }

    /// The master's answer for one `(headword, reading)`.
    pub open spec fn lists_spec(&self, headword: Seq<char>, reading: Seq<char>) -> bool {
        if all_kana(headword) {
            self.has_headword(headword)
        } else {
            self.has_pair(headword, hiragana(reading))
        }
    }

    pub fn new(headwords: Vec<String>, entries: &[(String, String)]) -> (r: MasterWords)
        ensures
            forall|h: Seq<char>| #[trigger] r.has_headword(h) == headwords.deep_view().contains(h),
            forall|h: Seq<char>, rd: Seq<char>| #[trigger] r.has_pair(h, rd) == entry_listed(entries.deep_view(), h, rd),
    {
        let mut set = StringHashSet::new();
        for i in 0..headwords.len()
            invariant
                forall|h: Seq<char>| set@.contains(h) == headwords.deep_view().take(i as int).contains(h),
        {
            let s = headwords[i].clone();
            assert(s@ == headwords.deep_view()[i as int]);
            proof {
                assert(headwords.deep_view().take(i as int + 1) =~= headwords.deep_view().take(i as int).push(s@));
            }
            set.insert(s);
        }
        proof { assert(headwords.deep_view().take(headwords.len() as int) =~= headwords.deep_view()); }
        let mut pairs = Groups::new();
        for i in 0..entries.len()
            invariant
                forall|h: Seq<char>, rd: Seq<char>| #[trigger] pairs.of(h).contains(rd) == entry_listed(entries.deep_view().take(i as int), h, rd),
        {
            let reading = to_hiragana(entries[i].1.as_str());
            let term = entries[i].0.clone();
            let ghost e = entries.deep_view()[i as int];
            assert(e == (term@, entries[i as int].1@));
            assert(reading@ == hiragana(e.1));
            proof {
                assert(entries.deep_view().take(i as int + 1) =~= entries.deep_view().take(i as int).push(e));
            }
            pairs.add(term, reading);
            proof {
                let prev = entries.deep_view().take(i as int);
                let next = entries.deep_view().take(i as int + 1);
                assert forall|h: Seq<char>, rd: Seq<char>| #[trigger] pairs.of(h).contains(rd) == entry_listed(next, h, rd) by {
                    if h == e.0 && rd == hiragana(e.1) {
                        assert(next[i as int] == e);
                    } else if entry_listed(next, h, rd) {
                        let k = choose|k: int| 0 <= k < next.len() && (#[trigger] next[k]).0 == h && hiragana(next[k].1) == rd;
                        assert(k < i);
                        assert(prev[k] == next[k]);
                    }
                    if entry_listed(prev, h, rd) {
                        let k = choose|k: int| 0 <= k < prev.len() && (#[trigger] prev[k]).0 == h && hiragana(prev[k].1) == rd;
                        assert(next[k] == prev[k]);
                    }
                }
            }
        }
        proof { assert(entries.deep_view().take(entries.len() as int) =~= entries.deep_view()); }
        MasterWords { headwords: set, pairs }
    }

    /// Does the master list this `(headword, reading)`? A kana headword stores
    /// no reading, so it matches on the headword alone.
    pub fn lists(&self, headword: &str, reading: &str) -> (r: bool)
        ensures
            r == self.lists_spec(headword@, reading@),
    {
        if is_all_kana(headword) {
            return self.headwords.contains(headword);
        }
        let folded = to_hiragana(reading);
        match self.pairs.get(headword) {
            Some(v) => crate::tables::holds(v, folded.as_str()),
            None => false,
        }
    }
}

/// Whether the ledger counts a token as a word: never a shred, and either a
/// content word that is not a number in figures, or anything the master lists
/// under the reading it was used with.
pub open spec fn counts_as_word_spec(t: Token, master: MasterWords) -> bool {
    &&& !impossible_onset(t.surface@)
    &&& ((content_pos(t.pos@) && !figures(t.surface@)) || master.lists_spec(t.base_form@, t.reading@))
}

/// Whether a token is one the ledger counts as a word.
///
/// A content word, or anything the master dictionary lists under the reading
/// it was used with. The pair rather than the headword, because 鬼/き and
/// 鬼/おに are both entries.
pub fn counts_as_word(t: &Token, master: &MasterWords) -> (r: bool)
    ensures
        r == counts_as_word_spec(*t, *master),
{
    if has_impossible_onset(t.surface.as_str()) {
        return false;
    }
    (is_content_word(t.pos.as_str()) && !is_figures(t.surface.as_str()))
        || master.lists(t.base_form.as_str(), t.reading.as_str())
}

/// Whether `next` is the past た finishing `prev` rather than opening a word of
/// its own — the た of だっ + た. Only a word that conjugates can have its
/// conjugation continued.
pub open spec fn continues_conjugation(prev: Token, next: Token) -> bool {
    &&& next.pos@ == "助動詞"@
    &&& next.base_form@ == "た"@
    &&& prev.inflected
    &&& (content_pos(prev.pos@) || prev.pos@ == "助動詞"@)
}

pub fn conjugation_continues(prev: &Token, next: &Token) -> (r: bool)
    ensures
        r == continues_conjugation(*prev, *next),
{
    same(next.pos.as_str(), "助動詞") && same(next.base_form.as_str(), "た") && prev.inflected
        && (is_content_word(prev.pos.as_str()) || same(prev.pos.as_str(), "助動詞"))
}

/// How a token part sounds inside a compound: as written when it is kana, by
/// its reading when it is not.
pub open spec fn spoken(t: Token) -> Seq<char> {
    if all_kana(t.surface@) { hiragana(t.surface@) } else { hiragana(t.reading@) }
}

pub fn spoken_form(t: &Token) -> (r: String)
    ensures
        r@ == spoken(*t),
{
    if is_all_kana(t.surface.as_str()) {
        to_hiragana(t.surface.as_str())
    } else {
        to_hiragana(t.reading.as_str())
    }
}

/// A piece of a compound rather than the word standing alone: a prefix or a
/// suffix, or a counter.
pub open spec fn bound_morpheme(pos: Seq<Seq<char>>) -> bool {
    ||| (pos.len() > 0 && (pos[0] == "接頭辞"@ || pos[0] == "接尾辞"@))
    ||| (pos.len() > 2 && (pos[2] == "助数詞"@ || pos[2] == "助数詞可能"@))
}

/// Is this token a piece of a compound rather than the word standing alone?
/// Sudachi tags the bound uses apart from the free one: 名 is 助数詞可能 as the
/// counter in 数名, 日 is 接尾辞 in 三日.
pub fn is_bound_morpheme(pos: &[String]) -> (r: bool)
    ensures
        r == bound_morpheme(pos.deep_view()),
{
    (pos.len() > 0 && (same(pos[0].as_str(), "接頭辞") || same(pos[0].as_str(), "接尾辞")))
        || (pos.len() > 2 && (same(pos[2].as_str(), "助数詞") || same(pos[2].as_str(), "助数詞可能")))
}

} // verus!

verus! {

/// Entry `k` has a reading, and it folds to `rd`.
pub open spec fn reads_as(entries: Seq<(Seq<char>, Seq<char>)>, k: int, rd: Seq<char>) -> bool {
    0 <= k < entries.len() && entries[k].1.len() > 0 && hiragana(entries[k].1) == rd
}

/// Whether `term` shares a (hiragana) reading with a different headword.
pub open spec fn shares_reading(entries: Seq<(Seq<char>, Seq<char>)>, term: Seq<char>) -> bool {
    exists|i: int, j: int|
        #![trigger entries[i], entries[j]]
        0 <= i < entries.len() && 0 <= j < entries.len() && entries[i].0 == term && entries[j].0 != term
            && entries[i].1.len() > 0 && entries[j].1.len() > 0
            && hiragana(entries[i].1) == hiragana(entries[j].1)
}

/// The headwords that share a reading with another headword — the only ones a
/// frequency arbitration can ever be asked about, so the only ones worth
/// fetching ranks for. Entries with no reading take no part.
pub fn ambiguous_headwords(entries: &[(String, String)]) -> (r: Vec<String>)
    ensures
        r.deep_view().no_duplicates(),
        forall|t: Seq<char>| #[trigger] r.deep_view().contains(t) == shares_reading(entries.deep_view(), t),
{
    let ghost es = entries.deep_view();
    let mut groups = Groups::new();
    for i in 0..entries.len()
        invariant
            es == entries.deep_view(),
            forall|rd: Seq<char>| (#[trigger] groups.of(rd)).no_duplicates(),
            forall|rd: Seq<char>, t: Seq<char>| #[trigger] groups.of(rd).contains(t)
                == exists|k: int| 0 <= k < i && reads_as(es, k, rd) && (#[trigger] es[k]).0 == t,
    {
        let ghost e = es[i as int];
        assert(e == (entries[i as int].0@, entries[i as int].1@));
        if !entries[i].1.as_str().is_empty() {
            let reading = to_hiragana(entries[i].1.as_str());
            let ghost old_groups = groups;
            groups.add(reading, entries[i].0.clone());
            proof {
                assert forall|rd: Seq<char>, t: Seq<char>| #[trigger] groups.of(rd).contains(t)
                    == exists|k: int| 0 <= k < i + 1 && reads_as(es, k, rd) && (#[trigger] es[k]).0 == t by {
                    if rd == hiragana(e.1) && t == e.0 {
                        assert(reads_as(es, i as int, rd) && es[i as int].0 == t);
                    }
                    if exists|k: int| 0 <= k < i + 1 && reads_as(es, k, rd) && (#[trigger] es[k]).0 == t {
                        let k = choose|k: int| 0 <= k < i + 1 && reads_as(es, k, rd) && (#[trigger] es[k]).0 == t;
                        if k < i {
                            assert(old_groups.of(rd).contains(t));
                        }
                    }
                }
            }
        } else {
            proof {
                assert forall|rd: Seq<char>, t: Seq<char>| #[trigger] groups.of(rd).contains(t)
                    == exists|k: int| 0 <= k < i + 1 && reads_as(es, k, rd) && (#[trigger] es[k]).0 == t by {
                    if exists|k: int| 0 <= k < i + 1 && reads_as(es, k, rd) && (#[trigger] es[k]).0 == t {
                        let k = choose|k: int| 0 <= k < i + 1 && reads_as(es, k, rd) && (#[trigger] es[k]).0 == t;
                        assert(k < i);
                    }
                }
            }
        }
    }

    let mut out: Vec<String> = Vec::new();
    let mut seen = StringHashSet::new();
    for i in 0..entries.len()
        invariant
            es == entries.deep_view(),
            forall|rd: Seq<char>| (#[trigger] groups.of(rd)).no_duplicates(),
            forall|rd: Seq<char>, t: Seq<char>| #[trigger] groups.of(rd).contains(t)
                == exists|k: int| 0 <= k < es.len() && reads_as(es, k, rd) && (#[trigger] es[k]).0 == t,
            out.deep_view().no_duplicates(),
            forall|t: Seq<char>| seen@.contains(t) == out.deep_view().contains(t),
            forall|t: Seq<char>| #[trigger] out.deep_view().contains(t)
                == exists|k: int| 0 <= k < i && es[k].1.len() > 0 && (#[trigger] es[k]).0 == t
                    && groups.of(hiragana(es[k].1)).len() > 1,
    {
        let ghost e = es[i as int];
        assert(e == (entries[i as int].0@, entries[i as int].1@));
        let ghost before = out.deep_view();
        if !entries[i].1.as_str().is_empty() {
            let reading = to_hiragana(entries[i].1.as_str());
            let shared = match groups.get(reading.as_str()) {
                Some(g) => g.len() > 1,
                None => false,
            };
            if shared && !seen.contains(entries[i].0.as_str()) {
                let term = entries[i].0.clone();
                seen.insert(entries[i].0.clone());
                out.push(term);
                proof { assert(out.deep_view() =~= before.push(e.0)); }
            }
        }
        proof {
            assert forall|t: Seq<char>| #[trigger] out.deep_view().contains(t)
                == exists|k: int| 0 <= k < i + 1 && es[k].1.len() > 0 && (#[trigger] es[k]).0 == t
                    && groups.of(hiragana(es[k].1)).len() > 1 by {
                if exists|k: int| 0 <= k < i + 1 && es[k].1.len() > 0 && (#[trigger] es[k]).0 == t
                    && groups.of(hiragana(es[k].1)).len() > 1 {
                    let k = choose|k: int| 0 <= k < i + 1 && es[k].1.len() > 0 && (#[trigger] es[k]).0 == t
                        && groups.of(hiragana(es[k].1)).len() > 1;
                    if k < i {
                        assert(before.contains(t));
                    }
                }
            }
        }
    }
    proof {
        assert forall|t: Seq<char>| #[trigger] out.deep_view().contains(t) == shares_reading(es, t) by {
            if out.deep_view().contains(t) {
                let k = choose|k: int| 0 <= k < es.len() && es[k].1.len() > 0 && (#[trigger] es[k]).0 == t
                    && groups.of(hiragana(es[k].1)).len() > 1;
                let rd = hiragana(es[k].1);
                let g = groups.of(rd);
                let other = if g[0] != t { g[0] } else { g[1] };
                assert(g.contains(g[0]) && g.contains(g[1]));
                assert(g[0] != g[1]);
                assert(g.contains(other) && other != t);
                let j = choose|j: int| 0 <= j < es.len() && reads_as(es, j, rd) && (#[trigger] es[j]).0 == other;
                assert(es[k].0 == t && es[j].0 != t && hiragana(es[k].1) == hiragana(es[j].1));
            }
            if shares_reading(es, t) {
                let (i0, j0) = choose|i0: int, j0: int|
                    #![trigger es[i0], es[j0]]
                    0 <= i0 < es.len() && 0 <= j0 < es.len() && es[i0].0 == t && es[j0].0 != t
                        && es[i0].1.len() > 0 && es[j0].1.len() > 0
                        && hiragana(es[i0].1) == hiragana(es[j0].1);
                let rd = hiragana(es[i0].1);
                let g = groups.of(rd);
                assert(reads_as(es, i0, rd) && reads_as(es, j0, rd));
                assert(g.contains(t));
                assert(g.contains(es[j0].0));
                let a = choose|a: int| 0 <= a < g.len() && g[a] == t;
                let b = choose|b: int| 0 <= b < g.len() && g[b] == es[j0].0;
                assert(a != b);
                assert(g.len() > 1);
            }
        }
    }
    out
}

} // verus!

verus! {

/// The tokenizer's one edit to its input, made before Sudachi sees the text:
/// the emphatic っ removed (see [`strip_emphatic_sokuon`]), and the rewrite
/// recorded when there was one.
pub fn rewrite(text: &str, trace: &mut Trace) -> (r: String)
    ensures
        r@ == stripped(text@),
        final(trace).is_on() == old(trace).is_on(),
        !(old(trace).is_on() && stripped(text@) != text@) ==> final(trace).recorded() == old(trace).recorded(),
        old(trace).is_on() && stripped(text@) != text@ ==> {
            &&& grew_by_one(*old(trace), *final(trace))
            &&& final(trace).recorded().last() matches Step::Rewrite { from, to }
            &&& from@ == text@ && to@ == stripped(text@)
        },
{
    let stripped_text = strip_emphatic_sokuon(text);
    if !same(stripped_text.as_str(), text) && trace.is_recording() {
        let from = text.to_owned();
        let to = stripped_text.clone();
        let ghost want = Step::Rewrite { from: from, to: to };
        trace.push(move || -> (s: Step)
            ensures
                s == want,
            { Step::Rewrite { from, to } });
    }
    stripped_text
}

} // verus!
