//! The vocabulary ledger's keys and what a row says — one row per term.
//!
//! `status` is what the reader asserted; encounters are what the reading did.
//! The two are orthogonal, so a row is legitimately "never judged" and "met 53
//! times" at once.
use vstd::prelude::*;
use vstd::std_specs::convert::IntoSpec;
use crate::strings::same;
use crate::text::kana::{all_kana, hiragana, is_all_kana, to_hiragana};

verus! {

/// What the reader has asserted about a term. Never set by a sync.
#[derive(Debug, Clone, Copy, PartialEq, Eq, Structural)]
pub enum Status {
    /// Ingested from reading, never judged. The default.
    New,
    Known,
    /// Judged, and not known.
    Unknown,
    /// Never surface this again.
    Blacklisted,
}

/// Every status, in the order they are listed.
pub const ALL_STATUSES: [Status; 4] = [Status::New, Status::Known, Status::Unknown, Status::Blacklisted];

impl Status {
    pub open spec fn name(self) -> Seq<char> {
        match self {
            Status::New => "new"@,
            Status::Known => "known"@,
            Status::Unknown => "unknown"@,
            Status::Blacklisted => "blacklisted"@,
        }
    }

    pub fn as_str(&self) -> (r: &'static str)
        ensures
            r@ == self.name(),
    {
        match self {
            Status::New => "new",
            Status::Known => "known",
            Status::Unknown => "unknown",
            Status::Blacklisted => "blacklisted",
        }
    }

    /// What a stored status reads back as: unrecognized values are `New`,
    /// which can never silently claim something is known.
    pub open spec fn parsed(s: Seq<char>) -> Status {
        if s == "known"@ {
            Status::Known
        } else if s == "unknown"@ {
            Status::Unknown
        } else if s == "blacklisted"@ {
            Status::Blacklisted
        } else {
            Status::New
        }
    }

    pub fn parse(s: &str) -> (r: Status)
        ensures
            r == Status::parsed(s@),
    {
        if same(s, "known") {
            Status::Known
        } else if same(s, "unknown") {
            Status::Unknown
        } else if same(s, "blacklisted") {
            Status::Blacklisted
        } else {
            Status::New
        }
    }

    /// Whether this status counts as vocabulary the reader has.
    pub fn is_known(&self) -> (r: bool)
        ensures
            r == (*self == Status::Known),
    {
        match self {
            Status::Known => true,
            _ => false,
        }
    }
}

/// Every status reads back as itself.
pub proof fn status_round_trip(s: Status)
    ensures
        Status::parsed(s.name()) == s,
{
    reveal_strlit("new");
    reveal_strlit("known");
    reveal_strlit("unknown");
    reveal_strlit("blacklisted");
    assert("new"@.len() == 3);
    assert("known"@.len() == 5);
    assert("unknown"@.len() == 7);
    assert("blacklisted"@.len() == 11);
}

/// A term's identity: the ledger's primary key.
#[derive(Debug, Clone, PartialEq, Eq, Hash, PartialOrd, Ord)]
pub struct Term {
    pub headword: String,
    /// Hiragana. Empty when the headword is already kana.
    pub reading: String,
}

/// The key a `(headword, reading)` pair is normalized to: the reading folded
/// to hiragana, and stored empty when the headword is kana.
pub open spec fn term_key(headword: Seq<char>, reading: Seq<char>) -> (Seq<char>, Seq<char>) {
    if all_kana(headword) { (headword, Seq::empty()) } else { (headword, hiragana(reading)) }
}

/// The reading a term displays: the stored one, or the headword when nothing
/// was stored.
pub open spec fn display_of(headword: Seq<char>, reading: Seq<char>) -> Seq<char> {
    if reading.len() == 0 { headword } else { reading }
}

impl Term {
    /// Normalize a `(headword, reading)` pair, so the same word lands on one
    /// row whether it came from a line, a pasted article or an Anki card: the
    /// reading folds to hiragana, and a kana-only headword stores an empty
    /// reading.
    ///
    /// The key is normalized from the headword the argument converts into:
    /// what `Into` gives is stated where the conversion's specification is
    /// known, and either way the reading is normalized against that headword.
    pub fn new<H: Into<String>>(headword: H, reading: &str) -> (r: Term)
        ensures
            (r.headword@, r.reading@) == term_key(r.headword@, reading@),
            <H as IntoSpec<String>>::obeys_into_spec() ==> (r.headword@, r.reading@) == term_key(
                IntoSpec::<String>::into_spec(headword)@,
                reading@,
            ),
    {
        let headword: String = headword.into();
        Term::from_parts(headword, reading)
    }

    /// [`Term::new`] on a borrowed headword, with what it builds stated: the
    /// key [`term_key`] gives the pair.
    pub fn keyed(headword: &str, reading: &str) -> (r: Term)
        ensures
            (r.headword@, r.reading@) == term_key(headword@, reading@),
    {
        Term::from_parts(headword.to_owned(), reading)
    }

    /// [`Term::new`] on an owned headword, with what it builds stated.
    pub fn from_parts(headword: String, reading: &str) -> (r: Term)
        ensures
            (r.headword@, r.reading@) == term_key(headword@, reading@),
    {
        let reading = if is_all_kana(headword.as_str()) { String::new() } else { to_hiragana(reading) };
        Term { headword, reading }
    }

    /// The reading to display: the stored one, or the headword when it is kana
    /// and the reading was therefore not stored twice.
    pub fn display_reading(&self) -> (r: &str)
        ensures
            r@ == display_of(self.headword@, self.reading@),
    {
        if self.reading.as_str().is_empty() { self.headword.as_str() } else { self.reading.as_str() }
    }

    pub fn duplicate(&self) -> (r: Term)
        ensures
            r == *self,
    {
        Term { headword: self.headword.clone(), reading: self.reading.clone() }
    }
}

/// Normalizing a normalized key changes nothing.
pub proof fn term_key_is_idempotent(headword: Seq<char>, reading: Seq<char>)
    ensures
        term_key(term_key(headword, reading).0, term_key(headword, reading).1) == term_key(headword, reading),
{
    let k = term_key(headword, reading);
    if !all_kana(headword) {
        assert(hiragana(hiragana(reading)) =~= hiragana(reading)) by {
            assert forall|i: int| 0 <= i < reading.len() implies
                crate::text::kana::hiragana_of(crate::text::kana::hiragana_of(#[trigger] reading[i])) == crate::text::kana::hiragana_of(reading[i]) by {
                let c = reading[i];
                if crate::text::kana::is_shifted_katakana(c) {
                    assert(((c as u32) - 0x60) as char == crate::text::kana::hiragana_of(c));
                }
            }
        }
    }
}

/// One ledger row, as far as the reading view needs it: the key, the
/// assertion, the counts and the dictionary flags.
#[derive(Debug, Clone)]
pub struct VocabRow {
    pub term: Term,
    pub pos: Option<String>,
    pub status: Status,
    pub mined: bool,
    pub encounter_count: i64,
    pub lookup_count: i64,
    pub in_master: bool,
    pub in_name: bool,
    /// Listed by some dictionary that is neither the master nor a name list.
    pub in_reference: bool,
    /// Frequency rank, where the query asked for it.
    pub freq_rank: Option<i64>,
}

impl VocabRow {
    /// The default rule for "the reader has this word": asserted known, or in
    /// Anki.
    pub fn is_known(&self) -> (r: bool)
        ensures
            r == (self.status == Status::Known || self.mined),
    {
        self.status.is_known() || self.mined
    }

    /// Whether this is a word at all, as opposed to reading noise: any loaded
    /// dictionary having it is enough.
    pub fn is_word(&self) -> (r: bool)
        ensures
            r == (self.in_master || self.in_name || self.in_reference),
    {
        self.in_master || self.in_name || self.in_reference
    }
}

/// Whether the triage default would call this term known: met often enough,
/// and never looked up — a single lookup disqualifies the default, whatever
/// the encounter count.
pub fn preselects_known(row: &VocabRow, min_encounters: i64) -> (r: bool)
    ensures
        r == (row.encounter_count >= min_encounters && row.lookup_count == 0),
{
    row.encounter_count >= min_encounters && row.lookup_count == 0
}

} // verus!

verus! {

/// What to do with one row whose reading is empty.
#[derive(Debug, Clone)]
pub enum RepairStep {
    /// A kana headword storing no reading is the convention, not a defect.
    Convention,
    /// No dictionary gives the headword a reading, or several do and guessing
    /// would assert one: left alone.
    Unresolved,
    /// The one reading keys back to the empty one: nothing to move.
    Unchanged,
    /// Move the row onto this key — merging into it where it already exists.
    Rekey(Term),
}

/// What the repair does with the empty-reading row of `headword`, given every
/// reading a dictionary gives it.
pub open spec fn repair_step_for(headword: Seq<char>, readings: Seq<Seq<char>>) -> Option<(Seq<char>, Seq<char>)> {
    if all_kana(headword) || readings.len() != 1 || term_key(headword, readings[0]) == (headword, Seq::<char>::empty()) {
        None
    } else {
        Some(term_key(headword, readings[0]))
    }
}

/// Re-key an empty-reading row that should never have had one: a *kanji*
/// headword stored without a reading splits one word across two keys, or
/// leaves its judgement where nothing else will write. Fixed only when a
/// dictionary gives exactly one reading — guessing would fabricate the key
/// everything joins on.
pub fn repair_step(headword: &str, readings: &Vec<String>) -> (r: RepairStep)
    ensures
        (r is Convention) == all_kana(headword@),
        (r is Unresolved) == (!all_kana(headword@) && readings.len() != 1),
        match r {
            RepairStep::Rekey(t) => repair_step_for(headword@, readings.deep_view()) == Some((t.headword@, t.reading@)),
            _ => repair_step_for(headword@, readings.deep_view()) is None,
        },
{
    if is_all_kana(headword) {
        return RepairStep::Convention;
    }
    if readings.len() != 1 {
        return RepairStep::Unresolved;
    }
    proof { assert(readings.deep_view()[0] == readings[0]@); }
    let target = Term::from_parts(headword.to_owned(), readings[0].as_str());
    if target.reading.as_str().is_empty() {
        proof { assert(target.reading@ =~= Seq::<char>::empty()); }
        return RepairStep::Unchanged;
    }
    RepairStep::Rekey(target)
}

} // verus!
