//! Where each token sits in its line, in UTF-16 code units — what a
//! JavaScript `Range` offset is indexed in.
//!
//! The tokenizer's tokens carry no offsets, but recomposition regroups
//! surfaces without altering one, so a single forward cursor recovers them. A
//! surface not found ahead of the cursor means that assumption broke, and the
//! token is dropped rather than guessed at.
use vstd::prelude::*;
use crate::highlight::{Candidate, Span, Tier};
use crate::knowledge::vocabulary::{Term, term_key};
use crate::strings::chars_of;
use crate::tokenize::{MasterWords, Token, counts_as_word, counts_as_word_spec};

verus! {

broadcast use vstd::seq_lib::group_seq_properties;

/// UTF-16 code units one character takes: two outside the Basic Multilingual
/// Plane, one inside it.
pub open spec fn units(c: char) -> nat {
    if (c as u32) >= 0x10000 { 2 } else { 1 }
}

/// UTF-16 code units a string takes.
pub open spec fn utf16_len(s: Seq<char>) -> nat
    decreases s.len(),
{
    if s.len() == 0 { 0 } else { utf16_len(s.drop_last()) + units(s.last()) }
}

/// Whether `pat` occurs in `text` starting at character `k`.
pub open spec fn occurs_at(text: Seq<char>, pat: Seq<char>, k: int) -> bool {
    0 <= k && k + pat.len() <= text.len() && text.subrange(k, k + pat.len()) == pat
}

/// The first character offset at or after `from` where `pat` occurs.
pub open spec fn first_occurrence(text: Seq<char>, pat: Seq<char>, from: int) -> Option<int>
    decreases text.len() + 1 - from,
{
    if from < 0 || from + pat.len() > text.len() {
        None
    } else if occurs_at(text, pat, from) {
        Some(from)
    } else {
        first_occurrence(text, pat, from + 1)
    }
}

/// The character cursor after the first tokens have been placed: just past
/// the last surface found.
pub open spec fn cursor_after(text: Seq<char>, tokens: Seq<Token>) -> int
    decreases tokens.len(),
{
    if tokens.len() == 0 {
        0
    } else {
        let c = cursor_after(text, tokens.drop_last());
        let pat = tokens.last().surface@;
        match first_occurrence(text, pat, c) {
            Some(k) => k + pat.len(),
            None => c,
        }
    }
}

/// The tokens that were found in the line, each with the character offset it
/// was found at, in order.
pub open spec fn found_in(text: Seq<char>, tokens: Seq<Token>) -> Seq<(Token, int)>
    decreases tokens.len(),
{
    if tokens.len() == 0 {
        Seq::empty()
    } else {
        let prev = found_in(text, tokens.drop_last());
        let c = cursor_after(text, tokens.drop_last());
        match first_occurrence(text, tokens.last().surface@, c) {
            Some(k) => prev.push((tokens.last(), k)),
            None => prev,
        }
    }
}

/// What `locate` makes of token `t` found at character `k`: its span in
/// UTF-16 units, its ledger term, and whether it counts as a word. The status
/// is a placeholder that classification overwrites.
pub open spec fn placed(c: Candidate, text: Seq<char>, t: Token, k: int, master: MasterWords) -> bool {
    &&& c.span.start == utf16_len(text.take(k))
    &&& c.span.len == utf16_len(t.surface@)
    &&& c.span.status@ == Tier::Seen.name()
    &&& (c.term.headword@, c.term.reading@) == term_key(t.base_form@, t.reading@)
    &&& c.span.headword@ == c.term.headword@
    &&& c.span.reading@ == c.term.reading@
    &&& c.span.freq_rank is None
    &&& c.span.bccwj_rank is None
    &&& c.surface@ == t.surface@
    &&& c.pos@ == t.pos@
    &&& c.proper_noun == t.proper_noun
    &&& c.content == counts_as_word_spec(t, master)
}

/// Whether `r` is what placing `tokens` in `text` gives: one candidate per
/// token found, in order.
pub open spec fn located(r: Seq<Candidate>, text: Seq<char>, tokens: Seq<Token>, master: MasterWords) -> bool {
    &&& r.len() == found_in(text, tokens).len()
    &&& forall|i: int| 0 <= i < r.len() ==>
        placed(#[trigger] r[i], text, found_in(text, tokens)[i].0, found_in(text, tokens)[i].1, master)
}

proof fn lemma_utf16_append(a: Seq<char>, b: Seq<char>)
    ensures
        utf16_len(a + b) == utf16_len(a) + utf16_len(b),
    decreases b.len(),
{
    if b.len() > 0 {
        assert((a + b).drop_last() =~= a + b.drop_last());
        assert((a + b).last() == b.last());
        lemma_utf16_append(a, b.drop_last());
    }
}

proof fn lemma_utf16_prefix(s: Seq<char>, j: int)
    requires
        0 <= j <= s.len(),
    ensures
        utf16_len(s.take(j)) <= utf16_len(s),
{
    assert(s =~= s.take(j) + s.skip(j));
    lemma_utf16_append(s.take(j), s.skip(j));
}

proof fn lemma_utf16_step(s: Seq<char>, j: int)
    requires
        0 <= j < s.len(),
    ensures
        utf16_len(s.take(j + 1)) == utf16_len(s.take(j)) + units(s[j]),
{
    assert(s.take(j + 1).drop_last() =~= s.take(j));
}

fn char_units(c: char) -> (n: usize)
    ensures
        n == units(c),
{
    if (c as u32) >= 0x10000 { 2 } else { 1 }
}

/// Whether `pat` occurs in `text` at `k`.
fn matches_at(text: &Vec<char>, pat: &Vec<char>, k: usize) -> (r: bool)
    requires
        k + pat.len() <= text.len(),
    ensures
        r == occurs_at(text@, pat@, k as int),
{
    let mut j: usize = 0;
    while j < pat.len()
        invariant
            k + pat.len() <= text.len(),
            j <= pat.len(),
            forall|i: int| 0 <= i < j ==> text@[k + i] == pat@[i],
        decreases pat.len() - j,
    {
        if text[k + j] != pat[j] {
            proof {
                assert(text@.subrange(k as int, k + pat.len())[j as int] != pat@[j as int]);
            }
            return false;
        }
        j = j + 1;
    }
    proof { assert(text@.subrange(k as int, k + pat.len()) =~= pat@); }
    true
}

/// The first offset at or after `from` where `pat` occurs in `text`.
pub fn find_from(text: &Vec<char>, pat: &Vec<char>, from: usize) -> (r: Option<usize>)
    ensures
        match r {
            Some(k) => first_occurrence(text@, pat@, from as int) == Some(k as int),
            None => first_occurrence(text@, pat@, from as int) is None,
        },
{
    if from > text.len() {
        return None;
    }
    let mut k = from;
    while pat.len() <= text.len() - k
        invariant
            from <= k <= text.len(),
            first_occurrence(text@, pat@, from as int) == first_occurrence(text@, pat@, k as int),
        decreases text.len() - k,
    {
        proof {
            if pat.len() == 0 {
                assert(text@.subrange(k as int, k as int) =~= pat@);
            }
        }
        if matches_at(text, pat, k) {
            return Some(k);
        }
        k = k + 1;
    }
    None
}

/// Pair each token with where it sits in the line.
///
/// Everything stepped over — spaces, punctuation, a dropped token, an
/// emphatic っ the tokenizer never saw — still moves the UTF-16 cursor, or
/// every span after it would slide left.
pub fn locate(text: &str, tokens: Vec<Token>, master: &MasterWords) -> (r: Vec<Candidate>)
    requires
        utf16_len(text@) <= usize::MAX,
    ensures
        located(r@, text@, tokens@, *master),
{
    let tc = chars_of(text);
    let mut out: Vec<Candidate> = Vec::new();
    let mut cursor: usize = 0;
    let mut units16: usize = 0;
    for i in 0..tokens.len()
        invariant
            tc@ == text@,
            utf16_len(text@) <= usize::MAX,
            cursor == cursor_after(text@, tokens@.take(i as int)),
            cursor <= tc.len(),
            units16 == utf16_len(text@.take(cursor as int)),
            out.len() == found_in(text@, tokens@.take(i as int)).len(),
            forall|j: int| 0 <= j < out.len() ==>
                placed(#[trigger] out@[j], text@, found_in(text@, tokens@.take(i as int))[j].0,
                    found_in(text@, tokens@.take(i as int))[j].1, *master),
    {
        let ghost pre = tokens@.take(i as int + 1);
        proof {
            assert(pre.drop_last() =~= tokens@.take(i as int));
            assert(pre.last() == tokens@[i as int]);
        }
        let t = &tokens[i];
        let pat = chars_of(t.surface.as_str());
        match find_from(&tc, &pat, cursor) {
            None => {},
            Some(k) => {
                proof {
                    assert(cursor <= k && k + pat.len() <= tc.len() && occurs_at(tc@, pat@, k as int)) by {
                        lemma_found_is_occurrence(tc@, pat@, cursor as int);
                    }
                }
                let mut c = cursor;
                while c < k
                    invariant
                        tc@ == text@,
                        utf16_len(text@) <= usize::MAX,
                        cursor <= c <= k,
                        k <= tc.len(),
                        units16 == utf16_len(text@.take(c as int)),
                    decreases k - c,
                {
                    proof {
                        lemma_utf16_step(text@, c as int);
                        lemma_utf16_prefix(text@, c as int + 1);
                    }
                    units16 = units16 + char_units(tc[c]);
                    c = c + 1;
                }
                let start = units16;
                let end_at = k + pat.len();
                while c < end_at
                    invariant
                        tc@ == text@,
                        utf16_len(text@) <= usize::MAX,
                        k <= c <= end_at,
                        end_at == k + pat.len(),
                        end_at <= tc.len(),
                        start == utf16_len(text@.take(k as int)),
                        units16 == utf16_len(text@.take(c as int)),
                    decreases end_at - c,
                {
                    proof {
                        lemma_utf16_step(text@, c as int);
                        lemma_utf16_prefix(text@, c as int + 1);
                    }
                    units16 = units16 + char_units(tc[c]);
                    c = c + 1;
                }
                proof {
                    assert(text@.take(end_at as int) =~= text@.take(k as int) + pat@);
                    lemma_utf16_append(text@.take(k as int), pat@);
                }
                let len = units16 - start;
                cursor = end_at;
                let content = counts_as_word(t, master);
                let term = Term::from_parts(t.base_form.clone(), t.reading.as_str());
                let span = Span {
                    start,
                    len,
                    status: Tier::Seen.as_str(),
                    headword: term.headword.clone(),
                    reading: term.reading.clone(),
                    freq_rank: None,
                    bccwj_rank: None,
                };
                let ghost before = out@;
                out.push(Candidate {
                    term,
                    span,
                    surface: t.surface.clone(),
                    pos: t.pos.clone(),
                    proper_noun: t.proper_noun,
                    content,
                });
                proof {
                    let f = found_in(text@, pre);
                    assert(f == found_in(text@, tokens@.take(i as int)).push((tokens@[i as int], k as int)));
                    assert forall|j: int| 0 <= j < out.len() implies
                        placed(#[trigger] out@[j], text@, f[j].0, f[j].1, *master) by {
                        if j < before.len() {
                            assert(out@[j] == before[j]);
                        }
                    }
                }
            },
        }
    }
    proof { assert(tokens@.take(tokens@.len() as int) =~= tokens@); }
    out
}

proof fn lemma_found_is_occurrence(text: Seq<char>, pat: Seq<char>, from: int)
    requires
        first_occurrence(text, pat, from) is Some,
    ensures
        ({
            let k = first_occurrence(text, pat, from)->0;
            &&& from <= k
            &&& k + pat.len() <= text.len()
            &&& occurs_at(text, pat, k)
        }),
    decreases text.len() - from,
{
    if 0 <= from && from + pat.len() <= text.len() {
        if pat.len() == 0 {
            assert(text.subrange(from, from) =~= pat);
        }
        if !occurs_at(text, pat, from) {
            lemma_found_is_occurrence(text, pat, from + 1);
        }
    }
}

} // verus!

verus! {

proof fn lemma_found_bounds(text: Seq<char>, tokens: Seq<Token>)
    ensures
        0 <= cursor_after(text, tokens) <= text.len(),
        forall|i: int| 0 <= i < found_in(text, tokens).len() ==> {
            let (t, k) = #[trigger] found_in(text, tokens)[i];
            &&& 0 <= k
            &&& k + t.surface@.len() <= cursor_after(text, tokens)
            &&& occurs_at(text, t.surface@, k)
        },
        forall|i: int, j: int| 0 <= i < j < found_in(text, tokens).len() ==>
            (#[trigger] found_in(text, tokens)[i]).1 + found_in(text, tokens)[i].0.surface@.len()
                <= (#[trigger] found_in(text, tokens)[j]).1,
    decreases tokens.len(),
{
    if tokens.len() > 0 {
        let prev = tokens.drop_last();
        lemma_found_bounds(text, prev);
        let c = cursor_after(text, prev);
        let pat = tokens.last().surface@;
        match first_occurrence(text, pat, c) {
            Some(k) => {
                lemma_found_is_occurrence(text, pat, c);
                let f = found_in(text, tokens);
                let fp = found_in(text, prev);
                assert(f == fp.push((tokens.last(), k)));
                assert forall|i: int, j: int| 0 <= i < j < f.len() implies
                    (#[trigger] f[i]).1 + f[i].0.surface@.len() <= (#[trigger] f[j]).1 by {
                    if j < fp.len() {
                        assert(f[i] == fp[i] && f[j] == fp[j]);
                    } else {
                        assert(f[i] == fp[i]);
                    }
                }
                assert forall|i: int| 0 <= i < f.len() implies {
                    let (t, kk) = #[trigger] f[i];
                    &&& 0 <= kk
                    &&& kk + t.surface@.len() <= cursor_after(text, tokens)
                    &&& occurs_at(text, t.surface@, kk)
                } by {
                    if i < fp.len() {
                        assert(f[i] == fp[i]);
                    }
                }
            },
            None => {},
        }
    }
}

/// The spans of a line come in reading order and never overlap: each ends
/// at or before the next one starts, however the surfaces repeat.
pub proof fn spans_are_ordered(r: Seq<Candidate>, text: Seq<char>, tokens: Seq<Token>, master: MasterWords)
    requires
        located(r, text, tokens, master),
    ensures
        forall|i: int, j: int| 0 <= i < j < r.len() ==>
            (#[trigger] r[i]).span.start + r[i].span.len <= (#[trigger] r[j]).span.start,
{
    lemma_found_bounds(text, tokens);
    let f = found_in(text, tokens);
    assert forall|i: int, j: int| 0 <= i < j < r.len() implies
        (#[trigger] r[i]).span.start + r[i].span.len <= (#[trigger] r[j]).span.start by {
        let (ti, ki) = f[i];
        let (tj, kj) = f[j];
        assert(placed(r[i], text, ti, ki, master));
        assert(placed(r[j], text, tj, kj, master));
        let end = ki + ti.surface@.len();
        assert(text.take(end) =~= text.take(ki) + ti.surface@);
        lemma_utf16_append(text.take(ki), ti.surface@);
        assert(text.take(kj).take(end) =~= text.take(end));
        lemma_utf16_prefix(text.take(kj), end);
    }
}

} // verus!
