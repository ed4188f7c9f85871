//! What each word in a hooked line is worth knowing about — the spans the
//! reading view tints.
//!
//! The pipeline runs over the line and each content word is looked up in the
//! vocabulary ledger. What comes back is **offsets, not markup**: the client
//! paints them, so the line stays one text node.
//!
//! Two things get no span, and a third gets one that is not drawn:
//!
//! - **Known words** (asserted known *or* mined) are sent but never painted;
//!   the absence of a mark is the signal. Sent because a span is also the
//!   region a tap judges, so a word just marked known stays tappable.
//! - **Names**: a cast list is not vocabulary.
//! - **Non-words**: tokenizer noise, and anything no dictionary lists. The
//!   ledger answers for a term it has a row for and [`Wordhood`] for one it
//!   does not, and both must answer alike.
//!
//! [`Tier`] splits the ledger's `new` on `encounter_count`, since it covers both
//! "met fifty times, never judged" and "never met at all".
use vstd::prelude::*;
use vstd::hash_set::StringHashSet;
use crate::knowledge::vocabulary::{display_of, Status, Term, VocabRow};
use crate::tables::PairRanks;
use crate::tokenize::{MasterWords, Token, TokenizeError, Tokenizer};
use crate::text::kana::{all_kana, hiragana, is_all_kana, mora_count, morae, to_hiragana};

pub mod derived;
pub mod placement;

pub use placement::locate;

verus! {

/// The encounter count at or below which a word is called `new` rather than
/// `seen`.
///
/// One rather than zero: ingest may already have credited *this* occurrence
/// by the time the line is drawn, so a first sighting reads as 0 or 1
/// depending on a race. Erring toward `new` is the harmless side.
pub const NEW_MAX_ENCOUNTERS: i64 = 1;

/// How many morae a kana string may have and still be refused a ledger row
/// that no dictionary backs — see [`Wordhood::is_noise`].
pub const NOISE_MAX_MORAE: usize = 3;

/// What a word is to the reader.
///
/// `Known` is here but not drawn: a span is also the region a tap judges, so a
/// known word stays tappable to be taken back.
#[derive(Debug, Clone, Copy, PartialEq, Eq, Structural)]
pub enum Tier {
    /// Never judged, and never (or barely) met.
    New,
    /// Never judged, but met before. The bulk of any line.
    Seen,
    /// Judged, and judged not known.
    Unknown,
    /// Asserted known, or mined. Sent, never painted.
    Known,
}

impl Tier {
    /// The name the mark's CSS class is built from.
    pub open spec fn name(self) -> Seq<char> {
        match self {
            Tier::New => "new"@,
            Tier::Seen => "seen"@,
            Tier::Unknown => "unknown"@,
            Tier::Known => "known"@,
        }
    }

    pub fn as_str(self) -> (r: &'static str)
        ensures
            r@ == self.name(),
    {
        match self {
            Tier::New => "new",
            Tier::Seen => "seen",
            Tier::Unknown => "unknown",
            Tier::Known => "known",
        }
    }
}

/// Why a token carries no status.
#[derive(Debug, Clone, Copy, PartialEq, Eq, Structural)]
pub enum Excluded {
    /// Not a content word, and not a master headword either.
    Grammar,
    /// A proper noun. A cast list is not vocabulary.
    Name,
    /// Judged never to surface again.
    Blacklisted,
    /// Tokenizer noise, or a term no dictionary lists.
    NonWord,
}

impl Excluded {
    pub open spec fn name(self) -> Seq<char> {
        match self {
            Excluded::Grammar => "grammar"@,
            Excluded::Name => "name"@,
            Excluded::Blacklisted => "blacklisted"@,
            Excluded::NonWord => "non-word"@,
        }
    }

    pub fn as_str(self) -> (r: &'static str)
        ensures
            r@ == self.name(),
    {
        match self {
            Excluded::Grammar => "grammar",
            Excluded::Name => "name",
            Excluded::Blacklisted => "blacklisted",
            Excluded::NonWord => "non-word",
        }
    }
}

/// One word's span, in UTF-16 code units from the start of the text — what a
/// JavaScript `Range` offset is indexed in. Counting `char`s would put every
/// highlight after the line's first surrogate pair one unit to the left.
#[derive(Debug, Clone)]
pub struct Span {
    pub start: usize,
    pub len: usize,
    /// `new`, `seen`, `unknown` or `known` — the mark's CSS class is built
    /// from it.
    pub status: &'static str,
    /// The ledger key this word judges, so a tap on it can write a status
    /// without a round trip. It is the *term's* spelling, not the surface
    /// under the finger: 振っ is judged as 振る.
    pub headword: String,
    pub reading: String,
    /// Frequency rank, `None` for a word the list does not carry.
    pub freq_rank: Option<i64>,
    /// BCCWJ rank, `None` for a word it does not carry.
    pub bccwj_rank: Option<i64>,
}

/// One token of the pipeline's output, placed in the line.
///
/// Not every candidate becomes a [`Span`], but a particle or a name is located
/// all the same: the token view shows the whole stream, including what the
/// feed drops and why.
#[derive(Debug, Clone)]
pub struct Candidate {
    pub term: Term,
    pub span: Span,
    pub surface: String,
    pub pos: String,
    pub proper_noun: bool,
    pub content: bool,
}

} // verus!

verus! {

/// Whether a term is a word at all, for a term the ledger cannot answer for.
///
/// A ledger row carries three dictionary flags and [`VocabRow::is_word`]
/// accepts any of them. A term met live has no row yet, so this holds the
/// same lenient set and both paths ask one question.
///
/// Being a word here says nothing about the vocabulary scale: that
/// denominator is the master dictionary alone.
pub struct Wordhood {
    terms: StringHashSet,
    /// Readings, for the kana half of the rule — a `Term` with no reading is a
    /// kana headword, and a dictionary giving it as some kanji headword's
    /// reading lists the word.
    readings: StringHashSet,
}

impl Wordhood {
    /// Whether some dictionary lists this string as a headword.
    pub closed spec fn lists(&self, s: Seq<char>) -> bool {
        self.terms@.contains(s)
    }

    /// Whether some dictionary gives this string as a reading.
    pub closed spec fn reads(&self, s: Seq<char>) -> bool {
        self.readings@.contains(s)
    }

    /// Whether no dictionary was loaded at all.
    pub closed spec fn blank(&self) -> bool {
        self.terms@.is_empty() && self.readings@.is_empty()
    }

    /// Whether a dictionary lists the term: its headword, or — for a kana
    /// headword, which stores no reading — its headword given as a reading.
    pub open spec fn covers(&self, headword: Seq<char>, reading: Seq<char>) -> bool {
        self.lists(headword) || (reading.len() == 0 && self.reads(headword))
    }

    /// Whether a dictionary has this string in the other kana alphabet.
    pub open spec fn other_alphabet(&self, headword: Seq<char>) -> bool {
        hiragana(headword) != headword && (self.lists(hiragana(headword)) || self.reads(hiragana(headword)))
    }

    /// Whether the ledger should refuse the term a row: dictionaries are
    /// loaded, the term is kana that none of them lists, and it is one mora, or
    /// two or three morae that no dictionary has in the other alphabet either.
    pub open spec fn noise(&self, headword: Seq<char>, reading: Seq<char>) -> bool {
        &&& !self.blank()
        &&& all_kana(headword)
        &&& !self.covers(headword, reading)
        &&& (mora_count(headword) == 1 || (2 <= mora_count(headword) <= NOISE_MAX_MORAE
            && !self.other_alphabet(headword)))
    }

    pub fn new(terms: Vec<String>, readings: Vec<String>) -> (r: Wordhood)
        ensures
            forall|s: Seq<char>| #[trigger] r.lists(s) == terms.deep_view().contains(s),
            forall|s: Seq<char>| #[trigger] r.reads(s) == readings.deep_view().contains(s),
            r.blank() == (terms.len() == 0 && readings.len() == 0),
    {
        Wordhood { terms: crate::tables::string_set(&terms), readings: crate::tables::string_set(&readings) }
    }

    /// Whether a dictionary lists this term.
    pub fn contains(&self, term: &Term) -> (r: bool)
        ensures
            r == self.covers(term.headword@, term.reading@),
    {
        self.terms.contains(term.headword.as_str())
            || (term.reading.as_str().is_empty() && self.readings.contains(term.headword.as_str()))
    }

    /// Whether the ledger should refuse this term a row at all.
    ///
    /// Below three morae, a kana string no dictionary has is almost always
    /// noise — sound effects and hook shrapnel; at four and five it is the
    /// work's own vocabulary, which no dictionary will ever list.
    ///
    /// The alphabet is asked both ways before the string is condemned: ウチ is
    /// うち. That stay does not extend to one mora: there is a word for every
    /// single kana, so the match is found every time and is evidence of none.
    ///
    /// No dictionaries loaded means the question cannot be asked: an absent
    /// authority refuses, it does not condemn.
    pub fn is_noise(&self, term: &Term) -> (r: bool)
        ensures
            r == self.noise(term.headword@, term.reading@),
    {
        if self.terms.is_empty() && self.readings.is_empty() {
            return false;
        }
        let h = term.headword.as_str();
        if !is_all_kana(h) || self.contains(term) {
            return false;
        }
        let m = morae(h);
        if m == 1 {
            true
        } else if 2 <= m && m <= NOISE_MAX_MORAE {
            !self.spelt_the_other_way(h)
        } else {
            false
        }
    }

    /// Does a dictionary have this string in the other kana alphabet?
    fn spelt_the_other_way(&self, headword: &str) -> (r: bool)
        ensures
            r == self.other_alphabet(headword@),
    {
        let folded = to_hiragana(headword);
        !crate::strings::same(folded.as_str(), headword)
            && (self.terms.contains(folded.as_str()) || self.readings.contains(folded.as_str()))
    }
}

impl Default for Wordhood {
    /// No dictionaries: nothing is listed, and nothing is condemned.
    fn default() -> (r: Wordhood)
        ensures
            r.blank(),
            forall|s: Seq<char>| !r.lists(s) && !r.reads(s),
    {
        Wordhood { terms: StringHashSet::new(), readings: StringHashSet::new() }
    }
}

/// One ledger row's tier, or why the word gets no mark at all.
pub open spec fn tier_of(row: VocabRow) -> Result<Tier, Excluded> {
    if row.status == Status::Blacklisted {
        Err(Excluded::Blacklisted)
    } else if !(row.in_master || row.in_name || row.in_reference) {
        Err(Excluded::NonWord)
    } else if row.status == Status::Known || row.mined {
        Ok(Tier::Known)
    } else if row.status == Status::Unknown {
        Ok(Tier::Unknown)
    } else if row.encounter_count <= NEW_MAX_ENCOUNTERS {
        Ok(Tier::New)
    } else {
        Ok(Tier::Seen)
    }
}

/// One ledger row's tier. Blacklisted words and non-words get no span at all,
/// which is also what makes a tap on them do nothing; an assertion outranks
/// any count; the untriaged are split on how often they were met.
pub fn tier_for(row: &VocabRow) -> (r: Result<Tier, Excluded>)
    ensures
        r == tier_of(*row),
{
    if row.status == Status::Blacklisted {
        return Err(Excluded::Blacklisted);
    }
    if !row.is_word() {
        return Err(Excluded::NonWord);
    }
    if row.is_known() {
        return Ok(Tier::Known);
    }
    match row.status {
        Status::Unknown => Ok(Tier::Unknown),
        _ => if row.encounter_count <= NEW_MAX_ENCOUNTERS { Ok(Tier::New) } else { Ok(Tier::Seen) },
    }
}

} // verus!

verus! {

/// One token as the token view shows it: where it sits, what the ledger calls
/// it, and either the tier the feed would tint it or the reason it would not.
#[derive(Debug, Clone)]
pub struct Analyzed {
    pub surface: String,
    pub start: usize,
    pub len: usize,
    pub headword: String,
    /// **The reading the tokenizer produced**, never another row's. Where the
    /// status came from a different row for the same headword, `judged_as`
    /// says so instead.
    pub reading: String,
    /// The reading of the row that actually carries the assertion, when the
    /// status came from a *different* row for the same headword.
    pub judged_as: Option<String>,
    pub pos: String,
    /// `new`, `seen`, `unknown` or `known` — `None` for a token the feed gives
    /// no span at all.
    pub status: Option<&'static str>,
    /// Set exactly when `status` is `None`.
    pub excluded: Option<&'static str>,
    /// How often the ledger has met this term, or `None` when it has no row.
    pub encounter_count: Option<i64>,
    pub lookup_count: Option<i64>,
    /// Frequency rank of the term, `None` when the list does not carry it.
    pub freq_rank: Option<i64>,
    /// BCCWJ rank of the term, `None` when it does not carry it.
    pub bccwj_rank: Option<i64>,
}

/// A term as the ledger keys it.
pub open spec fn term_view(t: Term) -> (Seq<char>, Seq<char>) {
    (t.headword@, t.reading@)
}

/// A term's rank in a frequency table: under the reading it displays, or,
/// failing that, under no reading — which is how a list files a kana
/// headword, answering for every reading of the spelling.
pub open spec fn rank_of(ranks: PairRanks, headword: Seq<char>, reading: Seq<char>) -> Option<i64> {
    match ranks.rank(headword, display_of(headword, reading)) {
        Some(r) => Some(r),
        None => ranks.rank(headword, Seq::empty()),
    }
}

/// How common the word is.
pub fn lookup_rank(ranks: &PairRanks, term: &Term) -> (r: Option<i64>)
    ensures
        r == rank_of(*ranks, term.headword@, term.reading@),
{
    match ranks.get(term.headword.as_str(), term.display_reading()) {
        Some(r) => Some(r),
        None => {
            proof {
                reveal_strlit("");
                assert(""@ =~= Seq::<char>::empty());
            }
            ranks.get(term.headword.as_str(), "")
        },
    }
}

/// The first ledger row for a term.
pub open spec fn row_for(rows: Seq<VocabRow>, key: (Seq<char>, Seq<char>)) -> Option<VocabRow>
    decreases rows.len(),
{
    if rows.len() == 0 {
        None
    } else if term_view(rows[0].term) == key {
        Some(rows[0])
    } else {
        row_for(rows.drop_first(), key)
    }
}

/// The reading a headword is known under, from `(headword, reading)` pairs.
pub open spec fn known_for(known: Seq<(String, String)>, headword: Seq<char>) -> Option<Seq<char>>
    decreases known.len(),
{
    if known.len() == 0 {
        None
    } else if known[0].0@ == headword {
        Some(known[0].1@)
    } else {
        known_for(known.drop_first(), headword)
    }
}

/// What a candidate is to the reader: grammar and names are excluded first; a
/// headword known under any reading is known; otherwise the ledger row
/// decides, and a term with no row yet is new if a dictionary lists it.
pub open spec fn verdict(c: Candidate, row: Option<VocabRow>, known: Option<Seq<char>>, word: bool) -> Result<Tier, Excluded> {
    if !c.content {
        Err(Excluded::Grammar)
    } else if c.proper_noun {
        Err(Excluded::Name)
    } else if known is Some {
        Ok(Tier::Known)
    } else {
        match row {
            Some(r) => tier_of(r),
            None => if word { Ok(Tier::New) } else { Err(Excluded::NonWord) },
        }
    }
}

/// The reading of the row that carries the assertion, when it is another
/// row's than the candidate's own.
pub open spec fn judged_reading(c: Candidate, known: Option<Seq<char>>) -> Option<Seq<char>> {
    match known {
        Some(k) => if c.content && !c.proper_noun && k != c.term.reading@ { Some(k) } else { None },
        None => None,
    }
}

/// Whether `a` reports candidate `c` given what the ledger and the
/// dictionaries say of it.
pub open spec fn reports(
    a: Analyzed,
    c: Candidate,
    row: Option<VocabRow>,
    known: Option<Seq<char>>,
    word: bool,
    rank: Option<i64>,
    bccwj: Option<i64>,
) -> bool {
    &&& a.surface@ == c.surface@
    &&& a.start == c.span.start
    &&& a.len == c.span.len
    &&& a.headword@ == c.term.headword@
    &&& a.reading@ == c.term.reading@
    &&& (match a.judged_as {
        Some(j) => judged_reading(c, known) == Some(j@),
        None => judged_reading(c, known) is None,
    })
    &&& a.pos@ == c.pos@
    &&& (match verdict(c, row, known, word) {
        Ok(t) => a.excluded is None && (a.status matches Some(s) && s@ == t.name()),
        Err(e) => a.status is None && (a.excluded matches Some(s) && s@ == e.name()),
    })
    &&& a.encounter_count == (match row { Some(r) => Some(r.encounter_count), None => None::<i64> })
    &&& a.lookup_count == (match row { Some(r) => Some(r.lookup_count), None => None::<i64> })
    &&& a.freq_rank == rank
    &&& a.bccwj_rank == bccwj
}

pub(crate) fn find_row<'a>(rows: &'a Vec<VocabRow>, term: &Term) -> (r: Option<&'a VocabRow>)
    ensures
        match r {
            Some(x) => row_for(rows@, term_view(*term)) == Some(*x),
            None => row_for(rows@, term_view(*term)) is None,
        },
{
    let mut i: usize = 0;
    proof { assert(rows@.skip(0) =~= rows@); }
    while i < rows.len()
        invariant
            i <= rows.len(),
            row_for(rows@, term_view(*term)) == row_for(rows@.skip(i as int), term_view(*term)),
        decreases rows.len() - i,
    {
        proof {
            assert(rows@.skip(i as int)[0] == rows@[i as int]);
            assert(rows@.skip(i as int).drop_first() =~= rows@.skip(i as int + 1));
        }
        if crate::strings::same(rows[i].term.headword.as_str(), term.headword.as_str())
            && crate::strings::same(rows[i].term.reading.as_str(), term.reading.as_str()) {
            return Some(&rows[i]);
        }
        i = i + 1;
    }
    None
}

fn find_known<'a>(known: &'a Vec<(String, String)>, headword: &str) -> (r: Option<&'a String>)
    ensures
        match r {
            Some(x) => known_for(known@, headword@) == Some(x@),
            None => known_for(known@, headword@) is None,
        },
{
    let mut i: usize = 0;
    proof { assert(known@.skip(0) =~= known@); }
    while i < known.len()
        invariant
            i <= known.len(),
            known_for(known@, headword@) == known_for(known@.skip(i as int), headword@),
        decreases known.len() - i,
    {
        proof {
            assert(known@.skip(i as int)[0] == known@[i as int]);
            assert(known@.skip(i as int).drop_first() =~= known@.skip(i as int + 1));
        }
        if crate::strings::same(known[i].0.as_str(), headword) {
            return Some(&known[i].1);
        }
        i = i + 1;
    }
    None
}

} // verus!

verus! {

/// What a call of the tokenizer came back with, as a sequence of tokens.
pub open spec fn outcome(r: Result<Vec<Token>, TokenizeError>) -> Option<Seq<Token>> {
    match r {
        Ok(v) => Some(v@),
        Err(_) => None,
    }
}

/// The ledger key a spelling stands for, given how the tokenizer split it: the
/// base form of its one token, or the spelling unchanged when it is not
/// exactly one token.
pub open spec fn key_from(spelling: Seq<char>, tokens: Option<Seq<Token>>) -> Seq<char> {
    match tokens {
        Some(ts) => if ts.len() == 1 { ts[0].base_form@ } else { spelling },
        None => spelling,
    }
}

/// The surfaces of a run of tokens, joined.
pub open spec fn run_surface(ts: Seq<Token>) -> Seq<char>
    decreases ts.len(),
{
    if ts.len() == 0 { Seq::empty() } else { run_surface(ts.drop_last()) + ts.last().surface@ }
}

/// The `k`-token prefix of a line with its last token in canonical form.
pub open spec fn prefix_form(ts: Seq<Token>, k: int) -> Seq<char> {
    run_surface(ts.take(k - 1)) + ts[k - 1].base_form@
}

/// Whether `r` holds the prefix forms of `ts`, one per prefix of at most
/// `max_tokens` tokens, shortest first.
pub open spec fn prefix_forms_are(r: Seq<String>, ts: Seq<Token>, max_tokens: nat) -> bool {
    &&& r.len() == (if ts.len() < max_tokens { ts.len() } else { max_tokens })
    &&& forall|i: int| 0 <= i < r.len() ==> (#[trigger] r[i])@ == prefix_form(ts, i + 1)
}

/// The ledger key for a spelling, from what the tokenizer made of it.
///
/// A spelling that does not resolve to exactly one token is returned
/// unchanged: a card can hold a phrase, and the base form of whichever
/// fragment came back first is not that word.
pub fn ledger_key_from(spelling: &str, tokens: &Result<Vec<Token>, TokenizeError>) -> (r: String)
    ensures
        r@ == key_from(spelling@, outcome(*tokens)),
{
    match tokens {
        Ok(ts) => if ts.len() == 1 { ts[0].base_form.clone() } else { spelling.to_owned() },
        Err(_) => spelling.to_owned(),
    }
}

/// Each prefix of a tokenized line that ends on a token boundary, with its
/// last token put back in its canonical form: しびれを切らした yields
/// しびれを切らす. A line the tokenizer failed on has none.
pub fn prefix_forms_from(tokens: &Result<Vec<Token>, TokenizeError>, max_tokens: usize) -> (r: Vec<String>)
    ensures
        match outcome(*tokens) {
            Some(ts) => prefix_forms_are(r@, ts, max_tokens as nat),
            None => r.len() == 0,
        },
{
    let ts = match tokens {
        Ok(ts) => ts,
        Err(_) => {
            return Vec::new();
        },
    };
    let n = if ts.len() < max_tokens { ts.len() } else { max_tokens };
    let mut out: Vec<String> = Vec::new();
    let mut run = String::new();
    for k in 0..n
        invariant
            n <= ts.len(),
            n == (if ts@.len() < max_tokens { ts@.len() } else { max_tokens as nat }),
            run@ == run_surface(ts@.take(k as int)),
            out.len() == k,
            forall|i: int| 0 <= i < out.len() ==> (#[trigger] out@[i])@ == prefix_form(ts@, i + 1),
    {
        let form = crate::strings::concat(run.as_str(), ts[k].base_form.as_str());
        proof {
            assert(ts@.take(k as int + 1 - 1) =~= ts@.take(k as int));
        }
        out.push(form);
        run = crate::strings::concat(run.as_str(), ts[k].surface.as_str());
        proof {
            let t = ts@.take(k as int + 1);
            assert(t.drop_last() =~= ts@.take(k as int));
            assert(t.last() == ts@[k as int]);
        }
    }
    out
}

/// The distinct ledger terms of the candidates the ledger is asked about —
/// content words that are not names — in the order they first appear.
pub open spec fn ledger_terms_of(cs: Seq<Candidate>) -> Seq<(Seq<char>, Seq<char>)>
    decreases cs.len(),
{
    if cs.len() == 0 {
        Seq::empty()
    } else {
        let d = ledger_terms_of(cs.drop_last());
        let c = cs.last();
        if c.content && !c.proper_noun && !d.contains(term_view(c.term)) {
            d.push(term_view(c.term))
        } else {
            d
        }
    }
}

fn holds_term(v: &Vec<Term>, t: &Term) -> (r: bool)
    ensures
        r == v@.map_values(|x: Term| term_view(x)).contains(term_view(*t)),
{
    let ghost m = v@.map_values(|x: Term| term_view(x));
    let mut i: usize = 0;
    while i < v.len()
        invariant
            i <= v.len(),
            m == v@.map_values(|x: Term| term_view(x)),
            forall|j: int| 0 <= j < i ==> m[j] != term_view(*t),
        decreases v.len() - i,
    {
        if crate::strings::same(v[i].headword.as_str(), t.headword.as_str())
            && crate::strings::same(v[i].reading.as_str(), t.reading.as_str()) {
            proof { assert(m[i as int] == term_view(*t)); }
            return true;
        }
        i = i + 1;
    }
    proof {
        if m.contains(term_view(*t)) {
            let j = choose|j: int| 0 <= j < m.len() && m[j] == term_view(*t);
            assert(m[j] != term_view(*t));
        }
    }
    false
}

/// The terms to ask the ledger about for a line.
pub fn ledger_terms(candidates: &Vec<Candidate>) -> (r: Vec<Term>)
    ensures
        r@.map_values(|x: Term| term_view(x)) == ledger_terms_of(candidates@),
{
    let mut out: Vec<Term> = Vec::new();
    for i in 0..candidates.len()
        invariant
            out@.map_values(|x: Term| term_view(x)) == ledger_terms_of(candidates@.take(i as int)),
    {
        let ghost pre = candidates@.take(i as int + 1);
        proof {
            assert(pre.drop_last() =~= candidates@.take(i as int));
            assert(pre.last() == candidates@[i as int]);
        }
        let c = &candidates[i];
        if c.content && !c.proper_noun && !holds_term(&out, &c.term) {
            let ghost before = out@;
            out.push(c.term.duplicate());
            proof {
                assert(out@.map_values(|x: Term| term_view(x)) =~= before.map_values(|x: Term| term_view(x)).push(term_view(c.term)));
            }
        }
    }
    proof { assert(candidates@.take(candidates@.len() as int) =~= candidates@); }
    out
}

/// The analyzed tokens the feed draws: those with a status.
pub open spec fn drawn(a: Seq<Analyzed>) -> Seq<Analyzed>
    decreases a.len(),
{
    if a.len() == 0 {
        Seq::empty()
    } else {
        let d = drawn(a.drop_last());
        if a.last().status is Some { d.push(a.last()) } else { d }
    }
}

/// Whether `s` is the span the feed draws for `a`. It points at the row that
/// carries the assertion, so a tap takes back the judgement the reader
/// actually made.
pub open spec fn span_of(s: Span, a: Analyzed) -> bool {
    &&& s.start == a.start
    &&& s.len == a.len
    &&& (a.status matches Some(st) && s.status@ == st@)
    &&& s.headword@ == a.headword@
    &&& s.reading@ == (match a.judged_as { Some(j) => j@, None => a.reading@ })
    &&& s.freq_rank == a.freq_rank
    &&& s.bccwj_rank == a.bccwj_rank
}

/// The spans to tint, from a line's analysis: the tokens with a status, in
/// reading order.
pub fn spans_of(analyzed: &Vec<Analyzed>) -> (r: Vec<Span>)
    ensures
        r.len() == drawn(analyzed@).len(),
        forall|i: int| 0 <= i < r.len() ==> span_of(#[trigger] r@[i], drawn(analyzed@)[i]),
{
    let mut out: Vec<Span> = Vec::new();
    for i in 0..analyzed.len()
        invariant
            out.len() == drawn(analyzed@.take(i as int)).len(),
            forall|j: int| 0 <= j < out.len() ==> span_of(#[trigger] out@[j], drawn(analyzed@.take(i as int))[j]),
    {
        let ghost pre = analyzed@.take(i as int + 1);
        proof {
            assert(pre.drop_last() =~= analyzed@.take(i as int));
            assert(pre.last() == analyzed@[i as int]);
        }
        let a = &analyzed[i];
        match a.status {
            Some(st) => {
                let reading = match &a.judged_as {
                    Some(j) => j.clone(),
                    None => a.reading.clone(),
                };
                let ghost before = out@;
                out.push(Span {
                    start: a.start,
                    len: a.len,
                    status: st,
                    headword: a.headword.clone(),
                    reading,
                    freq_rank: a.freq_rank,
                    bccwj_rank: a.bccwj_rank,
                });
                proof {
                    assert forall|j: int| 0 <= j < out.len() implies span_of(#[trigger] out@[j], drawn(pre)[j]) by {
                        if j < before.len() {
                            assert(out@[j] == before[j]);
                        }
                    }
                }
            },
            None => {},
        }
    }
    proof { assert(analyzed@.take(analyzed@.len() as int) =~= analyzed@); }
    out
}

} // verus!

verus! {

/// `Arc::clone`: another pointer to the same allocation, so the same value.
#[verifier::external_body]
fn share<T>(a: &std::sync::Arc<T>) -> (r: std::sync::Arc<T>)
    ensures
        r == *a,
{
    std::sync::Arc::clone(a)
}

/// The tokenizer plus the dictionary sets it needs, built once and shared by
/// every streaming reader — the dictionary load costs far more than
/// tokenizing a line.
pub struct Highlighter<T: Tokenizer> {
    tokenizer: std::sync::Arc<T>,
    /// The wordhood test for a term the ledger has no row for yet — the same
    /// question [`VocabRow::is_word`] answers for a term that has one.
    wordhood: Wordhood,
    /// The master dictionary keyed by `(headword, reading)`, for the affix half
    /// of the wordhood gate.
    master: MasterWords,
    /// Frequency rank per `(headword, reading)`, held rather than queried per
    /// line.
    ranks: PairRanks,
    /// BCCWJ ranks for the same headwords, held for the same reason.
    bccwj_ranks: PairRanks,
}

impl<T: Tokenizer> Highlighter<T> {
    pub closed spec fn engine(&self) -> T {
        *self.tokenizer
    }

    pub closed spec fn words(&self) -> Wordhood {
        self.wordhood
    }

    pub closed spec fn dictionary(&self) -> MasterWords {
        self.master
    }

    pub closed spec fn reader_ranks(&self) -> PairRanks {
        self.ranks
    }

    pub closed spec fn corpus_ranks(&self) -> PairRanks {
        self.bccwj_ranks
    }

    pub fn new(
        tokenizer: std::sync::Arc<T>,
        wordhood: Wordhood,
        master: MasterWords,
        ranks: PairRanks,
        bccwj_ranks: PairRanks,
    ) -> (r: Highlighter<T>)
        ensures
            r.engine() == *tokenizer,
            r.words() == wordhood,
            r.dictionary() == master,
            r.reader_ranks() == ranks,
            r.corpus_ranks() == bccwj_ranks,
    {
        Highlighter { tokenizer, wordhood, master, ranks, bccwj_ranks }
    }

    /// The tokenizer itself, for a caller that needs tokens rather than spans.
    /// Handed out rather than rebuilt: a second tokenizer is a second pipeline.
    pub fn tokenizer(&self) -> (r: std::sync::Arc<T>)
        ensures
            *r == self.engine(),
    {
        share(&self.tokenizer)
    }

    /// The ledger key a spelling from outside the tokenizer stands for — an
    /// Anki card's word, the term a popup sends — asked of *this* tokenizer,
    /// whatever it made of the spelling.
    pub fn ledger_key(&self, spelling: &str) -> (r: String)
        ensures
            exists|ts: Option<Seq<Token>>| r@ == key_from(spelling@, ts),
    {
        let tokens = self.tokenizer.tokenize(spelling);
        let r = ledger_key_from(spelling, &tokens);
        proof { assert(r@ == key_from(spelling@, outcome(tokens))); }
        r
    }

    /// Each prefix of `text` that ends on a token boundary, with its last
    /// token put back in its canonical form — the deinflected half of the
    /// popup's match scan.
    pub fn prefix_forms(&self, text: &str, max_tokens: usize) -> (r: Vec<String>)
        ensures
            r.len() == 0 || exists|ts: Seq<Token>| prefix_forms_are(r@, ts, max_tokens as nat),
    {
        let tokens = self.tokenizer.tokenize(text);
        let r = prefix_forms_from(&tokens, max_tokens);
        proof {
            match outcome(tokens) {
                Some(ts) => assert(prefix_forms_are(r@, ts, max_tokens as nat)),
                None => {},
            }
        }
        r
    }

    /// Every token in `text`, with its span — everything before the ledger is
    /// consulted. A tokenizer failure yields nothing: the feed must not stall
    /// because a word could not be classified.
    pub fn candidates(&self, text: &str) -> (r: Vec<Candidate>)
        requires
            placement::utf16_len(text@) <= usize::MAX,
        ensures
            r.len() == 0 || exists|ts: Seq<Token>| placement::located(r@, text@, ts, self.dictionary()),
    {
        match self.tokenizer.tokenize(text) {
            Ok(tokens) => {
                let ghost ts = tokens@;
                let r = locate(text, tokens, &self.master);
                proof { assert(placement::located(r@, text@, ts, self.dictionary())); }
                r
            },
            Err(_) => Vec::new(),
        }
    }

    /// Whether a term the ledger has never heard of is a word at all.
    fn is_word(&self, term: &Term) -> (r: bool)
        ensures
            r == self.words().covers(term.headword@, term.reading@),
    {
        self.wordhood.contains(term)
    }

    /// How common the word is, in the reader-facing list.
    fn rank(&self, term: &Term) -> (r: Option<i64>)
        ensures
            r == rank_of(self.reader_ranks(), term.headword@, term.reading@),
    {
        lookup_rank(&self.ranks, term)
    }

    /// The same word's rank in BCCWJ.
    fn bccwj_rank(&self, term: &Term) -> (r: Option<i64>)
        ensures
            r == rank_of(self.corpus_ranks(), term.headword@, term.reading@),
    {
        lookup_rank(&self.bccwj_ranks, term)
    }

    /// What the ledger and the dictionaries make of one candidate.
    fn judge_one(&self, c: &Candidate, rows: &Vec<VocabRow>, known: &Vec<(String, String)>) -> (a: Analyzed)
        ensures
            reports(a, *c, row_for(rows@, term_view(c.term)), known_for(known@, c.term.headword@),
                self.words().covers(c.term.headword@, c.term.reading@),
                rank_of(self.reader_ranks(), c.term.headword@, c.term.reading@),
                rank_of(self.corpus_ranks(), c.term.headword@, c.term.reading@)),
    {
        let row = find_row(rows, &c.term);
        let known_reading = find_known(known, c.term.headword.as_str());
        let mut judged_as: Option<String> = None;
        let verdict: Result<Tier, Excluded> = if !c.content {
            Err(Excluded::Grammar)
        } else if c.proper_noun {
            Err(Excluded::Name)
        } else {
            match known_reading {
                Some(k) => {
                    // A word known under another reading is known, and the
                    // span points at the row that says so.
                    if !crate::strings::same(k.as_str(), c.term.reading.as_str()) {
                        judged_as = Some(k.clone());
                    }
                    Ok(Tier::Known)
                },
                None => match row {
                    Some(r) => tier_for(r),
                    // No row: nothing has ingested this line yet, so the
                    // dictionaries are asked directly.
                    None => if self.is_word(&c.term) { Ok(Tier::New) } else { Err(Excluded::NonWord) },
                },
            }
        };
        let (status, excluded) = match verdict {
            Ok(t) => (Some(t.as_str()), None),
            Err(e) => (None, Some(e.as_str())),
        };
        Analyzed {
            surface: c.surface.clone(),
            start: c.span.start,
            len: c.span.len,
            headword: c.term.headword.clone(),
            reading: c.term.reading.clone(),
            judged_as,
            pos: c.pos.clone(),
            status,
            excluded,
            encounter_count: match row { Some(r) => Some(r.encounter_count), None => None },
            lookup_count: match row { Some(r) => Some(r.lookup_count), None => None },
            freq_rank: self.rank(&c.term),
            bccwj_rank: self.bccwj_rank(&c.term),
        }
    }

    /// Every candidate of a line, classified against the ledger rows fetched
    /// for [`ledger_terms`] and the readings their headwords are known under —
    /// the feed's spans and the tokens it drops, in reading order.
    pub fn judge(&self, candidates: &Vec<Candidate>, rows: &Vec<VocabRow>, known: &Vec<(String, String)>) -> (r: Vec<Analyzed>)
        ensures
            r.len() == candidates.len(),
            forall|i: int| 0 <= i < r.len() ==> {
                let c = #[trigger] candidates@[i];
                reports(r@[i], c, row_for(rows@, term_view(c.term)), known_for(known@, c.term.headword@),
                    self.words().covers(c.term.headword@, c.term.reading@),
                    rank_of(self.reader_ranks(), c.term.headword@, c.term.reading@),
                    rank_of(self.corpus_ranks(), c.term.headword@, c.term.reading@))
            },
    {
        let mut out: Vec<Analyzed> = Vec::new();
        for i in 0..candidates.len()
            invariant
                out.len() == i,
                forall|j: int| 0 <= j < i ==> {
                    let c = #[trigger] candidates@[j];
                    reports(out@[j], c, row_for(rows@, term_view(c.term)), known_for(known@, c.term.headword@),
                        self.words().covers(c.term.headword@, c.term.reading@),
                        rank_of(self.reader_ranks(), c.term.headword@, c.term.reading@),
                        rank_of(self.corpus_ranks(), c.term.headword@, c.term.reading@))
                },
        {
            let a = self.judge_one(&candidates[i], rows, known);
            out.push(a);
        }
        out
    }
}

} // verus!
