//! The lexeme layer — which of the ledger's rows are the same *word*.
//!
//! The ledger keys on `(headword, reading)` — an orthographic **form**, not a
//! word. That is the right key for the ledger, but the wrong unit to *count*:
//! three rows for 叔父, 伯父 and おじ are one word.
//!
//! **Everything here is derived and nothing is stored.** Computed at read time
//! it is a function of the *set* of known forms, so every import order
//! converges.
//!
//! A form's lexeme is, **in this order**:
//!
//! 1. **For a kana-only form, the lexeme of the kanji forms that read it**, when
//!    they all agree on one. つらい collapses into 辛い/つらい; おじ collapses
//!    into 叔父 and 伯父, which share an entry id. そう does not, because 相,
//!    添う, 沿う and 層 are different words.
//! 2. **The form's own entry id**, when the dictionary resolves it to exactly
//!    one.
//! 3. **The form itself**, so a term the reference dictionary does not list
//!    counts once on its own. Nothing is dropped for being unresolvable.
use vstd::prelude::*;
use vstd::hash_map::StringHashMap;
use crate::knowledge::vocabulary::{display_of, Term};
use crate::strings::same;
use crate::text::kana::{all_kana, is_all_kana};

verus! {

broadcast use vstd::seq_lib::group_seq_properties;

/// What a form was collapsed onto: a dictionary entry id, or a form standing
/// alone because nothing resolved it.
#[derive(Debug, Clone, PartialEq, Eq, Hash)]
pub enum Lexeme {
    Entry(i64),
    Form(String, String),
}

/// A lexeme's identity, as contracts compare it.
pub enum LexemeId {
    Entry(i64),
    Alone(Seq<char>, Seq<char>),
}

impl Lexeme {
    pub open spec fn id(self) -> LexemeId {
        match self {
            Lexeme::Entry(n) => LexemeId::Entry(n),
            Lexeme::Form(h, r) => LexemeId::Alone(h@, r@),
        }
    }

    /// A form standing for itself.
    pub fn of(term: &Term) -> (r: Lexeme)
        ensures
            r.id() == LexemeId::Alone(term.headword@, term.reading@),
    {
        Lexeme::Form(term.headword.clone(), term.reading.clone())
    }

    /// A copy with the same identity.
    pub fn duplicate(&self) -> (r: Lexeme)
        ensures
            r.id() == self.id(),
    {
        match self {
            Lexeme::Entry(n) => Lexeme::Entry(*n),
            Lexeme::Form(h, r) => Lexeme::Form(h.clone(), r.clone()),
        }
    }

    /// Whether two lexemes are the same one.
    pub fn same_as(&self, other: &Lexeme) -> (r: bool)
        ensures
            r == (self.id() == other.id()),
    {
        match (self, other) {
            (Lexeme::Entry(a), Lexeme::Entry(b)) => *a == *b,
            (Lexeme::Form(h1, r1), Lexeme::Form(h2, r2)) => same(h1.as_str(), h2.as_str()) && same(r1.as_str(), r2.as_str()),
            _ => false,
        }
    }
}

/// One known form, with whatever the reference dictionary says it is.
#[derive(Debug, Clone)]
pub struct KnownForm {
    pub term: Term,
    /// Distinct entry ids the dictionary gives this exact `(term, reading)`.
    /// More than one means the dictionary cannot decide, so it is not used.
    pub sequences: Vec<i64>,
}

/// A known form as contracts see it: headword, reading, entry ids.
pub open spec fn form_view(f: KnownForm) -> (Seq<char>, Seq<char>, Seq<i64>) {
    (f.term.headword@, f.term.reading@, f.sequences@)
}

/// Rule 2: the form's own entry id, when there is exactly one.
pub open spec fn own_id(f: (Seq<char>, Seq<char>, Seq<i64>)) -> Option<LexemeId> {
    if f.2.len() == 1 { Some(LexemeId::Entry(f.2[0])) } else { None }
}

/// Rules 2 then 3: the form's own id, or the form itself.
pub open spec fn spelled_id(f: (Seq<char>, Seq<char>, Seq<i64>)) -> LexemeId {
    match own_id(f) {
        Some(l) => l,
        None => LexemeId::Alone(f.0, f.1),
    }
}

impl KnownForm {
    /// Rule 2: the form's own id, when unambiguous.
    pub fn own_lexeme(&self) -> (r: Option<Lexeme>)
        ensures
            match r {
                Some(l) => own_id(form_view(*self)) == Some(l.id()),
                None => own_id(form_view(*self)) is None,
            },
    {
        if self.sequences.len() == 1 { Some(Lexeme::Entry(self.sequences[0])) } else { None }
    }

    /// The lexeme the form has on its own: its entry id, or itself.
    fn spelled(&self) -> (r: Lexeme)
        ensures
            r.id() == spelled_id(form_view(*self)),
    {
        match self.own_lexeme() {
            Some(l) => l,
            None => Lexeme::of(&self.term),
        }
    }
}

/// The kanji the lexeme layer compares spellings by.
pub open spec fn lexeme_kanji(c: char) -> bool {
    ('\u{4E00}' <= c && c <= '\u{9FFF}') || ('\u{3400}' <= c && c <= '\u{4DBF}')
}

fn is_kanji(c: char) -> (r: bool)
    ensures
        r == lexeme_kanji(c),
{
    ('\u{4E00}' <= c && c <= '\u{9FFF}') || ('\u{3400}' <= c && c <= '\u{4DBF}')
}

/// Whether knowing spelling `known` settles spelling `candidate`: they differ,
/// and every kanji in the candidate also appears in the known spelling.
pub open spec fn settles(known: Seq<char>, candidate: Seq<char>) -> bool {
    &&& known != candidate
    &&& forall|i: int| 0 <= i < candidate.len() && lexeme_kanji(#[trigger] candidate[i]) ==> known.contains(candidate[i])
}

/// Whether knowing `known` settles `candidate`: the same reading, and every
/// kanji of the candidate's spelling in the known one.
pub open spec fn covers_form(known: Term, candidate: Term) -> bool {
    &&& display_of(known.headword@, known.reading@) == display_of(candidate.headword@, candidate.reading@)
    &&& settles(known.headword@, candidate.headword@)
}

/// Whether knowing `known` settles `candidate`: only a spelling of the same
/// reading is settled.
pub fn covers(known: &Term, candidate: &Term) -> (r: bool)
    ensures
        r == covers_form(*known, *candidate),
{
    if !same(known.display_reading(), candidate.display_reading()) {
        return false;
    }
    if same(known.headword.as_str(), candidate.headword.as_str()) {
        return false;
    }
    let k = crate::strings::chars_of(known.headword.as_str());
    let c = crate::strings::chars_of(candidate.headword.as_str());
    let mut i: usize = 0;
    while i < c.len()
        invariant
            k@ == known.headword@,
            c@ == candidate.headword@,
            i <= c.len(),
            forall|j: int| 0 <= j < i && lexeme_kanji(#[trigger] c@[j]) ==> k@.contains(c@[j]),
        decreases c.len() - i,
    {
        if is_kanji(c[i]) {
            let mut found = false;
            let mut j: usize = 0;
            while j < k.len()
                invariant
                    i < c.len(),
                    j <= k.len(),
                    found == exists|m: int| 0 <= m < j && k@[m] == c@[i as int],
                decreases k.len() - j,
            {
                if k[j] == c[i] {
                    found = true;
                }
                j = j + 1;
            }
            if !found {
                proof {
                    if k@.contains(c@[i as int]) {
                        let m = choose|m: int| 0 <= m < k@.len() && k@[m] == c@[i as int];
                        assert(0 <= m < j && k@[m] == c@[i as int]);
                    }
                }
                return false;
            }
        }
        i = i + 1;
    }
    true
}

/// Whether a known form of the same reading settles the candidate.
pub open spec fn redundant(known: Seq<Term>, candidate: Term) -> bool {
    exists|k: int| 0 <= k < known.len()
        && display_of(#[trigger] known[k].headword@, known[k].reading@) == display_of(candidate.headword@, candidate.reading@)
        && settles(known[k].headword@, candidate.headword@)
}

/// The candidates a known form settles, in order.
pub open spec fn redundant_of(known: Seq<Term>, candidates: Seq<Term>) -> Seq<Term>
    decreases candidates.len(),
{
    if candidates.len() == 0 {
        Seq::empty()
    } else {
        let d = redundant_of(known, candidates.drop_last());
        if redundant(known, candidates.last()) { d.push(candidates.last()) } else { d }
    }
}

} // verus!

verus! {

/// Known forms indexed by the reading they display.
fn index_by_reading(known: &Vec<Term>) -> (idx: StringHashMap<Vec<usize>>)
    ensures
        forall|r: Seq<char>, j: int| #[trigger] idx@.contains_key(r) && 0 <= j < idx@[r]@.len() ==> {
            let k = #[trigger] idx@[r]@[j];
            &&& k < known.len()
            &&& display_of(known@[k as int].headword@, known@[k as int].reading@) == r
        },
        forall|k: int| 0 <= k < known.len() ==> {
            let r = display_of(#[trigger] known@[k].headword@, known@[k].reading@);
            idx@.contains_key(r) && idx@[r]@.contains(k as usize)
        },
{
    let mut idx: StringHashMap<Vec<usize>> = StringHashMap::new();
    for i in 0..known.len()
        invariant
            forall|r: Seq<char>, j: int| #[trigger] idx@.contains_key(r) && 0 <= j < idx@[r]@.len() ==> {
                let k = #[trigger] idx@[r]@[j];
                &&& k < i
                &&& display_of(known@[k as int].headword@, known@[k as int].reading@) == r
            },
            forall|k: int| 0 <= k < i ==> {
                let r = display_of(#[trigger] known@[k].headword@, known@[k].reading@);
                idx@.contains_key(r) && idx@[r]@.contains(k as usize)
            },
    {
        let reading = known[i].display_reading();
        let ghost key = reading@;
        let mut list: Vec<usize> = match idx.get(reading) {
            Some(v) => v.clone(),
            None => Vec::new(),
        };
        let ghost before = list@;
        proof {
            assert(idx@.contains_key(key) ==> before == idx@[key]@);
        }
        list.push(i);
        let ghost old_idx = idx@;
        idx.insert(reading.to_owned(), list);
        proof {
            assert forall|r: Seq<char>, j: int| #[trigger] idx@.contains_key(r) && 0 <= j < idx@[r]@.len() implies {
                let k = #[trigger] idx@[r]@[j];
                &&& k < i + 1
                &&& display_of(known@[k as int].headword@, known@[k as int].reading@) == r
            } by {
                if r == key {
                    if j < before.len() {
                        assert(idx@[r]@[j] == before[j]);
                        assert(old_idx.contains_key(r));
                    }
                } else {
                    assert(old_idx.contains_key(r));
                }
            }
            assert forall|k: int| 0 <= k < i + 1 implies {
                let r = display_of(#[trigger] known@[k].headword@, known@[k].reading@);
                idx@.contains_key(r) && idx@[r]@.contains(k as usize)
            } by {
                let r = display_of(known@[k].headword@, known@[k].reading@);
                if k == i {
                    assert(idx@[key]@[before.len() as int] == i);
                } else if r == key {
                    assert(old_idx.contains_key(r) && old_idx[r]@.contains(k as usize));
                    let m = choose|m: int| 0 <= m < before.len() && before[m] == k as usize;
                    assert(idx@[r]@[m] == k as usize);
                }
            }
        }
    }
    idx
}

/// Forms triage should stop offering, because a known form already covers
/// them.
///
/// **Not the same as sharing a lexeme**: redundancy runs one direction only. A
/// form is covered when its kanji are a *subset* of a known form's of the same
/// reading — こぼれ落ちる ⊆ 零れ落ちる, and pure kana ⊆ anything. Knowing the
/// harder spelling settles the easier one; the reverse settles nothing about
/// whether 零 can be read.
pub fn redundant_among(known: &Vec<Term>, candidates: &Vec<Term>) -> (r: Vec<Term>)
    ensures
        r@ == redundant_of(known@, candidates@),
{
    let idx = index_by_reading(known);
    let mut out: Vec<Term> = Vec::new();
    for i in 0..candidates.len()
        invariant
            out@ == redundant_of(known@, candidates@.take(i as int)),
            forall|r: Seq<char>, j: int| #[trigger] idx@.contains_key(r) && 0 <= j < idx@[r]@.len() ==> {
                let k = #[trigger] idx@[r]@[j];
                &&& k < known.len()
                &&& display_of(known@[k as int].headword@, known@[k as int].reading@) == r
            },
            forall|k: int| 0 <= k < known.len() ==> {
                let r = display_of(#[trigger] known@[k].headword@, known@[k].reading@);
                idx@.contains_key(r) && idx@[r]@.contains(k as usize)
            },
    {
        let ghost pre = candidates@.take(i as int + 1);
        proof {
            assert(pre.drop_last() =~= candidates@.take(i as int));
            assert(pre.last() == candidates@[i as int]);
        }
        let c = &candidates[i];
        let reading = c.display_reading();
        let mut hit = false;
        match idx.get(reading) {
            Some(list) => {
                let mut j: usize = 0;
                while j < list.len()
                    invariant
                        reading@ == display_of(c.headword@, c.reading@),
                        idx@.contains_key(reading@),
                        list@ == idx@[reading@]@,
                        j <= list.len(),
                        forall|r: Seq<char>, m: int| #[trigger] idx@.contains_key(r) && 0 <= m < idx@[r]@.len() ==> {
                            let k = #[trigger] idx@[r]@[m];
                            &&& k < known.len()
                            &&& display_of(known@[k as int].headword@, known@[k as int].reading@) == r
                        },
                        hit ==> redundant(known@, *c),
                        !hit ==> forall|m: int| 0 <= m < j ==> !settles(known@[list@[m] as int].headword@, c.headword@),
                    decreases list.len() - j,
                {
                    let k = list[j];
                    assert(idx@[reading@]@[j as int] == k);
                    if covers(&known[k], c) {
                        hit = true;
                        proof {
                            assert(display_of(known@[k as int].headword@, known@[k as int].reading@) == reading@);
                            assert(0 <= k < known@.len()
                                && display_of(known@[k as int].headword@, known@[k as int].reading@) == display_of(c.headword@, c.reading@)
                                && settles(known@[k as int].headword@, c.headword@));
                        }
                    }
                    j = j + 1;
                }
                proof {
                    if !hit && redundant(known@, *c) {
                        let k = choose|k: int| 0 <= k < known@.len()
                            && display_of(#[trigger] known@[k].headword@, known@[k].reading@) == display_of(c.headword@, c.reading@)
                            && settles(known@[k].headword@, c.headword@);
                        assert(idx@[reading@]@.contains(k as usize));
                        let m = choose|m: int| 0 <= m < list@.len() && list@[m] == k as usize;
                        assert(!settles(known@[list@[m] as int].headword@, c.headword@));
                    }
                }
            },
            None => {
                proof {
                    if redundant(known@, *c) {
                        let k = choose|k: int| 0 <= k < known@.len()
                            && display_of(#[trigger] known@[k].headword@, known@[k].reading@) == display_of(c.headword@, c.reading@)
                            && settles(known@[k].headword@, c.headword@);
                        assert(idx@.contains_key(reading@));
                    }
                }
            },
        }
        if hit {
            out.push(c.duplicate());
        }
    }
    proof { assert(candidates@.take(candidates@.len() as int) =~= candidates@); }
    out
}

} // verus!

verus! {

/// A joined row's form: headword and reading.
pub open spec fn row_key(r: (String, String, Option<i64>)) -> (Seq<char>, Seq<char>) {
    (r.0@, r.1@)
}

/// The distinct forms of a list of joined rows, in the order they first appear.
pub open spec fn form_keys(rows: Seq<(String, String, Option<i64>)>) -> Seq<(Seq<char>, Seq<char>)>
    decreases rows.len(),
{
    if rows.len() == 0 {
        Seq::empty()
    } else {
        let d = form_keys(rows.drop_last());
        if d.contains(row_key(rows.last())) { d } else { d.push(row_key(rows.last())) }
    }
}

/// The distinct entry ids the rows give one form, in the order they first
/// appear.
pub open spec fn entry_ids(rows: Seq<(String, String, Option<i64>)>, key: (Seq<char>, Seq<char>)) -> Seq<i64>
    decreases rows.len(),
{
    if rows.len() == 0 {
        Seq::empty()
    } else {
        let d = entry_ids(rows.drop_last(), key);
        let r = rows.last();
        match r.2 {
            Some(n) => if row_key(r) == key && !d.contains(n) { d.push(n) } else { d },
            None => d,
        }
    }
}

proof fn lemma_unseen_form_has_no_ids(rows: Seq<(String, String, Option<i64>)>, key: (Seq<char>, Seq<char>))
    requires
        !form_keys(rows).contains(key),
    ensures
        entry_ids(rows, key) == Seq::<i64>::empty(),
    decreases rows.len(),
{
    if rows.len() > 0 {
        let d = form_keys(rows.drop_last());
        if !d.contains(row_key(rows.last())) {
            assert(d.push(row_key(rows.last()))[d.len() as int] == row_key(rows.last()));
            assert forall|x: (Seq<char>, Seq<char>)| d.contains(x) implies d.push(row_key(rows.last())).contains(x) by {
                let k = choose|k: int| 0 <= k < d.len() && d[k] == x;
                assert(d.push(row_key(rows.last()))[k] == x);
            }
        }
        lemma_unseen_form_has_no_ids(rows.drop_last(), key);
    }
}

/// Whether `out` holds the known forms the rows describe: one per form, in the
/// order forms first appear, each with its distinct entry ids.
pub open spec fn grouped(out: Seq<KnownForm>, rows: Seq<(String, String, Option<i64>)>) -> bool {
    &&& out.len() == form_keys(rows).len()
    &&& forall|j: int| 0 <= j < out.len() ==> {
        &&& (#[trigger] out[j]).term.headword@ == form_keys(rows)[j].0
        &&& out[j].term.reading@ == form_keys(rows)[j].1
        &&& out[j].sequences@ == entry_ids(rows, form_keys(rows)[j])
    }
}

fn holds_id(v: &Vec<i64>, n: i64) -> (r: bool)
    ensures
        r == v@.contains(n),
{
    let mut i: usize = 0;
    while i < v.len()
        invariant
            i <= v.len(),
            forall|j: int| 0 <= j < i ==> v@[j] != n,
        decreases v.len() - i,
    {
        if v[i] == n {
            return true;
        }
        i = i + 1;
    }
    false
}

/// Regroup joined rows — one per `(form, entry id)`, the id absent where the
/// reference dictionary does not list the form — into one known form each.
pub fn group_forms(rows: &Vec<(String, String, Option<i64>)>) -> (r: Vec<KnownForm>)
    ensures
        grouped(r@, rows@),
{
    let mut out: Vec<KnownForm> = Vec::new();
    let mut idx: StringHashMap<Vec<usize>> = StringHashMap::new();
    for i in 0..rows.len()
        invariant
            grouped(out@, rows@.take(i as int)),
            forall|h: Seq<char>, m: int| #[trigger] idx@.contains_key(h) && 0 <= m < idx@[h]@.len() ==> {
                let j = #[trigger] idx@[h]@[m];
                j < out.len() && out@[j as int].term.headword@ == h
            },
            forall|j: int| 0 <= j < out.len() ==>
                idx@.contains_key((#[trigger] out@[j]).term.headword@) && idx@[out@[j].term.headword@]@.contains(j as usize),
    {
        let ghost prev = rows@.take(i as int);
        let ghost pre = rows@.take(i as int + 1);
        proof {
            assert(pre.drop_last() =~= prev);
            assert(pre.last() == rows@[i as int]);
        }
        let ghost key = row_key(rows@[i as int]);
        let h = rows[i].0.as_str();
        let rd = rows[i].1.as_str();
        let seq = rows[i].2;
        // Where this form already stands, if it does.
        let mut at: Option<usize> = None;
        let list: Vec<usize> = match idx.get(h) {
            Some(v) => v.clone(),
            None => Vec::new(),
        };
        let mut m: usize = 0;
        while m < list.len()
            invariant
                m <= list.len(),
                idx@.contains_key(h@) ==> list@ == idx@[h@]@,
                !idx@.contains_key(h@) ==> list@.len() == 0,
                forall|hh: Seq<char>, mm: int| #[trigger] idx@.contains_key(hh) && 0 <= mm < idx@[hh]@.len() ==> {
                    let j = #[trigger] idx@[hh]@[mm];
                    j < out.len() && out@[j as int].term.headword@ == hh
                },
                match at {
                    Some(p) => p < out.len() && out@[p as int].term.headword@ == h@ && out@[p as int].term.reading@ == rd@,
                    None => forall|mm: int| 0 <= mm < m ==> out@[list@[mm] as int].term.reading@ != rd@,
                },
            decreases list.len() - m,
        {
            let p = list[m];
            assert(idx@[h@]@[m as int] == p);
            if at.is_none() && same(out[p].term.reading.as_str(), rd) {
                at = Some(p);
            }
            m = m + 1;
        }
        match at {
            Some(p) => {
                proof {
                    assert(form_keys(prev)[p as int] == key);
                    assert(form_keys(prev).contains(key));
                    assert(form_keys(pre) == form_keys(prev));
                }
                let mut ids = out[p].sequences.clone();
                match seq {
                    Some(n) => {
                        if !holds_id(&ids, n) {
                            ids.push(n);
                        }
                    },
                    None => {},
                }
                let f = KnownForm { term: out[p].term.duplicate(), sequences: ids };
                let ghost old_out = out@;
                out.set(p, f);
                proof {
                    assert forall|j: int| 0 <= j < out.len() implies {
                        &&& (#[trigger] out@[j]).term.headword@ == form_keys(pre)[j].0
                        &&& out@[j].term.reading@ == form_keys(pre)[j].1
                        &&& out@[j].sequences@ == entry_ids(pre, form_keys(pre)[j])
                    } by {
                        if j != p {
                            assert(out@[j] == old_out[j]);
                            assert(form_keys(prev)[j] != key) by {
                                lemma_keys_distinct(prev, j, p as int);
                            }
                        }
                    }
                }
            },
            None => {
                proof {
                    if form_keys(prev).contains(key) {
                        let j = choose|j: int| 0 <= j < form_keys(prev).len() && form_keys(prev)[j] == key;
                        assert(out@[j].term.headword@ == h@);
                        assert(idx@[h@]@.contains(j as usize));
                        let mm = choose|mm: int| 0 <= mm < list@.len() && list@[mm] == j as usize;
                        assert(out@[list@[mm] as int].term.reading@ != rd@);
                    }
                    assert(!form_keys(prev).contains(key));
                    lemma_unseen_form_has_no_ids(prev, key);
                    assert(form_keys(pre) == form_keys(prev).push(key));
                }
                let mut ids: Vec<i64> = Vec::new();
                match seq {
                    Some(n) => ids.push(n),
                    None => {},
                }
                proof {
                    assert(entry_ids(pre, key) =~= ids@);
                }
                let ghost old_out = out@;
                let pos = out.len();
                out.push(KnownForm { term: Term { headword: rows[i].0.clone(), reading: rows[i].1.clone() }, sequences: ids });
                let mut entry = list;
                entry.push(pos);
                let ghost old_idx = idx@;
                let ghost old_entry_len = entry@.len() - 1;
                idx.insert(rows[i].0.clone(), entry);
                proof {
                    assert forall|j: int| 0 <= j < out.len() implies {
                        &&& (#[trigger] out@[j]).term.headword@ == form_keys(pre)[j].0
                        &&& out@[j].term.reading@ == form_keys(pre)[j].1
                        &&& out@[j].sequences@ == entry_ids(pre, form_keys(pre)[j])
                    } by {
                        if j < old_out.len() {
                            assert(out@[j] == old_out[j]);
                            assert(form_keys(pre)[j] == form_keys(prev)[j]);
                            assert(form_keys(prev)[j] != key);
                        }
                    }
                    assert forall|hh: Seq<char>, mm: int| #[trigger] idx@.contains_key(hh) && 0 <= mm < idx@[hh]@.len() implies {
                        let j = #[trigger] idx@[hh]@[mm];
                        j < out.len() && out@[j as int].term.headword@ == hh
                    } by {
                        if hh == h@ {
                            if mm < old_entry_len {
                                assert(old_idx.contains_key(hh));
                                assert(idx@[hh]@[mm] == old_idx[hh]@[mm]);
                            }
                        } else {
                            assert(old_idx.contains_key(hh));
                        }
                    }
                    assert forall|j: int| 0 <= j < out.len() implies
                        idx@.contains_key((#[trigger] out@[j]).term.headword@) && idx@[out@[j].term.headword@]@.contains(j as usize) by {
                        if j < old_out.len() {
                            assert(out@[j] == old_out[j]);
                            let hh = out@[j].term.headword@;
                            assert(old_idx.contains_key(hh) && old_idx[hh]@.contains(j as usize));
                            if hh == h@ {
                                let mm = choose|mm: int| 0 <= mm < old_idx[hh]@.len() && old_idx[hh]@[mm] == j as usize;
                                assert(idx@[hh]@[mm] == j as usize);
                            }
                        } else {
                            assert(idx@[h@]@[old_entry_len as int] == pos);
                        }
                    }
                }
            },
        }
    }
    proof { assert(rows@.take(rows@.len() as int) =~= rows@); }
    out
}

proof fn lemma_keys_distinct(rows: Seq<(String, String, Option<i64>)>, a: int, b: int)
    requires
        0 <= a < form_keys(rows).len(),
        0 <= b < form_keys(rows).len(),
        a != b,
    ensures
        form_keys(rows)[a] != form_keys(rows)[b],
    decreases rows.len(),
{
    let d = form_keys(rows.drop_last());
    if !d.contains(row_key(rows.last())) {
        if a < d.len() && b < d.len() {
            lemma_keys_distinct(rows.drop_last(), a, b);
        } else if a < d.len() {
            assert(d.contains(d[a]));
        } else {
            assert(d.contains(d[b]));
        }
    } else {
        lemma_keys_distinct(rows.drop_last(), a, b);
    }
}

} // verus!

verus! {

/// The known forms, as a set: what a lexeme is decided against, so that the
/// order the forms were learned in cannot matter.
pub open spec fn form_set(forms: Seq<KnownForm>) -> Set<(Seq<char>, Seq<char>, Seq<i64>)> {
    forms.map_values(|f: KnownForm| form_view(f)).to_set()
}

/// Whether `f` is a kanji spelling that displays `reading`.
pub open spec fn spells(f: (Seq<char>, Seq<char>, Seq<i64>), reading: Seq<char>) -> bool {
    !all_kana(f.0) && display_of(f.0, f.1) == reading
}

/// Whether every kanji spelling of `reading` among `forms` — and there is at
/// least one — stands for lexeme `l`.
pub open spec fn agreed(forms: Set<(Seq<char>, Seq<char>, Seq<i64>)>, reading: Seq<char>, l: LexemeId) -> bool {
    &&& exists|g: (Seq<char>, Seq<char>, Seq<i64>)| #[trigger] forms.contains(g) && spells(g, reading) && spelled_id(g) == l
    &&& forall|g: (Seq<char>, Seq<char>, Seq<i64>)| #[trigger] forms.contains(g) && spells(g, reading) ==> spelled_id(g) == l
}

/// The lexeme a form collapses onto among `forms`: rule 1 for a kana form
/// whose kanji spellings agree, rules 2 and 3 otherwise.
pub open spec fn lexeme_id_of(forms: Set<(Seq<char>, Seq<char>, Seq<i64>)>, f: (Seq<char>, Seq<char>, Seq<i64>)) -> LexemeId {
    if all_kana(f.0) && exists|l: LexemeId| #[trigger] agreed(forms, f.0, l) {
        choose|l: LexemeId| #[trigger] agreed(forms, f.0, l)
    } else {
        spelled_id(f)
    }
}

/// The identities of a list of lexemes.
pub open spec fn lex_ids(v: Seq<Lexeme>) -> Seq<LexemeId> {
    v.map_values(|l: Lexeme| l.id())
}

/// Whether `r` resolves each of `forms`, in order, to its lexeme.
pub open spec fn resolved(r: Seq<(Term, Lexeme)>, forms: Seq<KnownForm>) -> bool {
    &&& r.len() == forms.len()
    &&& forall|i: int| 0 <= i < r.len() ==> {
        &&& (#[trigger] r[i]).0.headword@ == forms[i].term.headword@
        &&& r[i].0.reading@ == forms[i].term.reading@
        &&& r[i].1.id() == lexeme_id_of(form_set(forms), form_view(forms[i]))
    }
}

fn holds_lexeme(v: &Vec<Lexeme>, l: &Lexeme) -> (r: bool)
    ensures
        r == lex_ids(v@).contains(l.id()),
{
    let mut i: usize = 0;
    while i < v.len()
        invariant
            i <= v.len(),
            forall|j: int| 0 <= j < i ==> lex_ids(v@)[j] != l.id(),
        decreases v.len() - i,
    {
        if v[i].same_as(l) {
            proof { assert(lex_ids(v@)[i as int] == l.id()); }
            return true;
        }
        i = i + 1;
    }
    proof {
        if lex_ids(v@).contains(l.id()) {
            let j = choose|j: int| 0 <= j < lex_ids(v@).len() && lex_ids(v@)[j] == l.id();
            assert(lex_ids(v@)[j] != l.id());
        }
    }
    false
}

fn copy_lexemes(v: &Vec<Lexeme>) -> (r: Vec<Lexeme>)
    ensures
        lex_ids(r@) == lex_ids(v@),
{
    let mut out: Vec<Lexeme> = Vec::new();
    for i in 0..v.len()
        invariant
            lex_ids(out@) == lex_ids(v@.take(i as int)),
    {
        let ghost before = out@;
        out.push(v[i].duplicate());
        proof {
            assert(lex_ids(out@) =~= lex_ids(before).push(v@[i as int].id()));
            assert(v@.take(i as int + 1) =~= v@.take(i as int).push(v@[i as int]));
            assert(lex_ids(v@.take(i as int + 1)) =~= lex_ids(v@.take(i as int)).push(v@[i as int].id()));
        }
    }
    proof { assert(v@.take(v@.len() as int) =~= v@); }
    out
}

/// What the reading groups hold after the first `n` forms: under each reading,
/// the distinct lexemes of the kanji spellings among them that display it.
pub open spec fn groups_hold(m: Map<Seq<char>, Vec<Lexeme>>, forms: Seq<KnownForm>, n: int) -> bool {
    &&& forall|r: Seq<char>| #[trigger] m.contains_key(r) ==> lex_ids(m[r]@).no_duplicates()
    &&& forall|r: Seq<char>, x: int| #![trigger m[r]@[x]] m.contains_key(r) && 0 <= x < m[r]@.len() ==>
        exists|k: int| 0 <= k < n && spells(form_view(#[trigger] forms[k]), r) && spelled_id(form_view(forms[k])) == m[r]@[x].id()
    &&& forall|k: int| 0 <= k < n && !all_kana(forms[k].term.headword@) ==> {
        let r = display_of((#[trigger] forms[k]).term.headword@, forms[k].term.reading@);
        m.contains_key(r) && lex_ids(m[r]@).contains(spelled_id(form_view(forms[k])))
    }
}

/// Rule 1's input: for each reading, the lexemes of the *kanji* forms that
/// carry it. Only kanji forms, because the point is to fold a kana spelling
/// into a kanji one.
fn reading_groups(forms: &Vec<KnownForm>) -> (m: StringHashMap<Vec<Lexeme>>)
    ensures
        groups_hold(m@, forms@, forms@.len() as int),
{
    let mut m: StringHashMap<Vec<Lexeme>> = StringHashMap::new();
    for i in 0..forms.len()
        invariant
            groups_hold(m@, forms@, i as int),
    {
        let f = &forms[i];
        if !is_all_kana(f.term.headword.as_str()) {
            let reading = f.term.display_reading();
            let ghost key = reading@;
            let lex = f.spelled();
            let mut list: Vec<Lexeme> = match m.get(reading) {
                Some(v) => copy_lexemes(v),
                None => Vec::new(),
            };
            let ghost before = list@;
            let ghost old_m = m@;
            proof {
                assert(old_m.contains_key(key) ==> lex_ids(before) == lex_ids(old_m[key]@));
            }
            if !holds_lexeme(&list, &lex) {
                list.push(lex);
                proof {
                    assert(lex_ids(list@) =~= lex_ids(before).push(spelled_id(form_view(forms@[i as int]))));
                }
            }
            let ghost after = list@;
            m.insert(reading.to_owned(), list);
            proof {
                assert(spells(form_view(forms@[i as int]), key));
                assert forall|r: Seq<char>| #[trigger] m@.contains_key(r) implies lex_ids(m@[r]@).no_duplicates() by {
                    if r != key {
                        assert(old_m.contains_key(r));
                    } else if after.len() != before.len() {
                        let s = lex_ids(after);
                        assert forall|a: int, b: int| 0 <= a < s.len() && 0 <= b < s.len() && a != b implies s[a] != s[b] by {
                            if a < before.len() && b < before.len() {
                                if old_m.contains_key(key) {
                                    assert(s[a] == lex_ids(old_m[key]@)[a]);
                                    assert(s[b] == lex_ids(old_m[key]@)[b]);
                                }
                            } else if a < before.len() {
                                assert(lex_ids(before).contains(s[a]));
                            } else {
                                assert(lex_ids(before).contains(s[b]));
                            }
                        }
                    } else {
                        if old_m.contains_key(key) {
                            assert(lex_ids(after) == lex_ids(old_m[key]@));
                        } else {
                            assert(lex_ids(after).len() == 0);
                        }
                    }
                }
                assert forall|r: Seq<char>, x: int| #![trigger m@[r]@[x]] m@.contains_key(r) && 0 <= x < m@[r]@.len() implies
                    exists|k: int| 0 <= k < i + 1 && spells(form_view(#[trigger] forms@[k]), r) && spelled_id(form_view(forms@[k])) == m@[r]@[x].id() by {
                    if r != key {
                        assert(old_m.contains_key(r));
                    } else if x < before.len() {
                        assert(old_m.contains_key(key));
                        assert(lex_ids(after)[x] == lex_ids(old_m[key]@)[x]);
                        assert(m@[r]@[x].id() == old_m[key]@[x].id());
                    } else {
                        assert(m@[r]@[x].id() == spelled_id(form_view(forms@[i as int])));
                    }
                }
                assert forall|k: int| 0 <= k < i + 1 && !all_kana(forms@[k].term.headword@) implies {
                    let r = display_of((#[trigger] forms@[k]).term.headword@, forms@[k].term.reading@);
                    m@.contains_key(r) && lex_ids(m@[r]@).contains(spelled_id(form_view(forms@[k])))
                } by {
                    let r = display_of(forms@[k].term.headword@, forms@[k].term.reading@);
                    if k == i {
                        if after.len() != before.len() {
                            assert(lex_ids(after)[before.len() as int] == spelled_id(form_view(forms@[k])));
                        }
                    } else if r == key {
                        assert(old_m.contains_key(r));
                        let y = choose|y: int| 0 <= y < lex_ids(old_m[r]@).len() && lex_ids(old_m[r]@)[y] == spelled_id(form_view(forms@[k]));
                        assert(lex_ids(after)[y] == spelled_id(form_view(forms@[k])));
                    }
                }
            }
        }
    }
    m
}

} // verus!

verus! {

proof fn lemma_in_form_set(forms: Seq<KnownForm>, k: int)
    requires
        0 <= k < forms.len(),
    ensures
        form_set(forms).contains(form_view(forms[k])),
{
    assert(forms.map_values(|f: KnownForm| form_view(f))[k] == form_view(forms[k]));
}

proof fn lemma_from_form_set(forms: Seq<KnownForm>, g: (Seq<char>, Seq<char>, Seq<i64>))
    requires
        form_set(forms).contains(g),
    ensures
        exists|k: int| 0 <= k < forms.len() && form_view(#[trigger] forms[k]) == g,
{
    let fv = forms.map_values(|f: KnownForm| form_view(f));
    let k = choose|k: int| 0 <= k < fv.len() && fv[k] == g;
    assert(form_view(forms[k]) == g);
}

/// Rule 1 read off the reading groups: the kanji spellings of `h` agree
/// exactly when its group holds one lexeme, and then on that one.
proof fn lemma_agreement(forms: Seq<KnownForm>, m: Map<Seq<char>, Vec<Lexeme>>, h: Seq<char>)
    requires
        groups_hold(m, forms, forms.len() as int),
    ensures
        (m.contains_key(h) && m[h]@.len() == 1) ==> {
            &&& agreed(form_set(forms), h, m[h]@[0].id())
            &&& forall|l: LexemeId| #[trigger] agreed(form_set(forms), h, l) ==> l == m[h]@[0].id()
        },
        !(m.contains_key(h) && m[h]@.len() == 1) ==> forall|l: LexemeId| !(#[trigger] agreed(form_set(forms), h, l)),
{
    let s = form_set(forms);
    if m.contains_key(h) && m[h]@.len() == 1 {
        let l0 = m[h]@[0].id();
        assert(m[h]@[0] == m[h]@[0]);
        let k = choose|k: int| 0 <= k < forms.len() && spells(form_view(#[trigger] forms[k]), h) && spelled_id(form_view(forms[k])) == m[h]@[0].id();
        lemma_in_form_set(forms, k);
        assert(s.contains(form_view(forms[k])) && spells(form_view(forms[k]), h) && spelled_id(form_view(forms[k])) == l0);
        assert forall|g: (Seq<char>, Seq<char>, Seq<i64>)| #[trigger] s.contains(g) && spells(g, h) implies spelled_id(g) == l0 by {
            lemma_from_form_set(forms, g);
            let k2 = choose|k2: int| 0 <= k2 < forms.len() && form_view(#[trigger] forms[k2]) == g;
            assert(!all_kana(forms[k2].term.headword@));
            assert(lex_ids(m[h]@).contains(spelled_id(g)));
            let y = choose|y: int| 0 <= y < lex_ids(m[h]@).len() && lex_ids(m[h]@)[y] == spelled_id(g);
            assert(y == 0);
        }
        assert forall|l: LexemeId| #[trigger] agreed(s, h, l) implies l == l0 by {
            let g = choose|g: (Seq<char>, Seq<char>, Seq<i64>)| #[trigger] s.contains(g) && spells(g, h) && spelled_id(g) == l;
            assert(spelled_id(g) == l0);
        }
    } else {
        assert forall|l: LexemeId| !(#[trigger] agreed(s, h, l)) by {
            if agreed(s, h, l) {
                let g = choose|g: (Seq<char>, Seq<char>, Seq<i64>)| #[trigger] s.contains(g) && spells(g, h) && spelled_id(g) == l;
                lemma_from_form_set(forms, g);
                let k = choose|k: int| 0 <= k < forms.len() && form_view(#[trigger] forms[k]) == g;
                assert(!all_kana(forms[k].term.headword@));
                assert(m.contains_key(h) && lex_ids(m[h]@).contains(l));
                assert(m[h]@.len() >= 2);
                assert(m[h]@[0] == m[h]@[0]);
                assert(m[h]@[1] == m[h]@[1]);
                let k0 = choose|k0: int| 0 <= k0 < forms.len() && spells(form_view(#[trigger] forms[k0]), h) && spelled_id(form_view(forms[k0])) == m[h]@[0].id();
                let k1 = choose|k1: int| 0 <= k1 < forms.len() && spells(form_view(#[trigger] forms[k1]), h) && spelled_id(form_view(forms[k1])) == m[h]@[1].id();
                lemma_in_form_set(forms, k0);
                lemma_in_form_set(forms, k1);
                assert(lex_ids(m[h]@)[0] != lex_ids(m[h]@)[1]);
            }
        }
    }
}

/// Resolve every known form to a lexeme, applying the three rules in order.
///
/// Each form's lexeme is decided against the *set* of known forms: which kanji
/// spellings read a kana form is a question about the set, not about the
/// order the rows were written in.
pub fn resolve(forms: &Vec<KnownForm>) -> (r: Vec<(Term, Lexeme)>)
    ensures
        resolved(r@, forms@),
{
    let groups = reading_groups(forms);
    let mut out: Vec<(Term, Lexeme)> = Vec::new();
    for i in 0..forms.len()
        invariant
            groups_hold(groups@, forms@, forms@.len() as int),
            out.len() == i,
            forall|j: int| 0 <= j < i ==> {
                &&& (#[trigger] out@[j]).0.headword@ == forms@[j].term.headword@
                &&& out@[j].0.reading@ == forms@[j].term.reading@
                &&& out@[j].1.id() == lexeme_id_of(form_set(forms@), form_view(forms@[j]))
            },
    {
        let f = &forms[i];
        let h = f.term.headword.as_str();
        let ghost fv = form_view(forms@[i as int]);
        proof { lemma_agreement(forms@, groups@, h@); }
        let lex = if is_all_kana(h) {
            match groups.get(h) {
                Some(v) => if v.len() == 1 {
                    // All the kanji spellings that read this agree on one
                    // word, so the kana spelling is that word too.
                    let l = v[0].duplicate();
                    proof {
                        let c = choose|l: LexemeId| #[trigger] agreed(form_set(forms@), h@, l);
                        assert(agreed(form_set(forms@), h@, l.id()));
                    }
                    l
                } else {
                    // Several words share the reading: standing alone is the
                    // honest answer.
                    f.spelled()
                },
                None => f.spelled(),
            }
        } else {
            f.spelled()
        };
        out.push((f.term.duplicate(), lex));
    }
    out
}

} // verus!

verus! {

/// Both figures at once, for a caller that wants to show the gap.
#[derive(Debug, Clone, Copy)]
pub struct LexemeCount {
    /// Known forms counted.
    pub forms: i64,
    /// Distinct words among them.
    pub lexemes: i64,
}

/// The distinct lexemes a resolution names.
pub open spec fn lexeme_set(r: Seq<(Term, Lexeme)>) -> Set<LexemeId> {
    r.map_values(|p: (Term, Lexeme)| p.1.id()).to_set()
}

/// How many forms were resolved, and how many distinct **words** they are —
/// the figure "I know N words" is built on. The difference is pure spelling.
pub fn count_lexemes(resolved: &Vec<(Term, Lexeme)>) -> (r: LexemeCount)
    requires
        resolved.len() <= i64::MAX,
    ensures
        r.forms == resolved.len(),
        r.lexemes == lexeme_set(resolved@).len(),
        r.lexemes <= r.forms,
{
    let mut distinct: Vec<Lexeme> = Vec::new();
    for i in 0..resolved.len()
        invariant
            lex_ids(distinct@).no_duplicates(),
            lex_ids(distinct@).to_set() == resolved@.take(i as int).map_values(|p: (Term, Lexeme)| p.1.id()).to_set(),
            distinct.len() <= i,
    {
        let ghost before = distinct@;
        let ghost prev = resolved@.take(i as int).map_values(|p: (Term, Lexeme)| p.1.id());
        let ghost next = resolved@.take(i as int + 1).map_values(|p: (Term, Lexeme)| p.1.id());
        let ghost x = resolved@[i as int].1.id();
        proof {
            assert(next =~= prev.push(x));
            assert(next.to_set() =~= prev.to_set().insert(x));
        }
        let l = &resolved[i].1;
        if !holds_lexeme(&distinct, l) {
            distinct.push(l.duplicate());
            proof {
                assert(lex_ids(distinct@) =~= lex_ids(before).push(x));
                assert(lex_ids(distinct@).to_set() =~= lex_ids(before).to_set().insert(x));
                assert forall|a: int, b: int| 0 <= a < lex_ids(distinct@).len() && 0 <= b < lex_ids(distinct@).len() && a != b
                    implies lex_ids(distinct@)[a] != lex_ids(distinct@)[b] by {
                    if a < before.len() && b < before.len() {
                        assert(lex_ids(distinct@)[a] == lex_ids(before)[a]);
                        assert(lex_ids(distinct@)[b] == lex_ids(before)[b]);
                    } else if a < before.len() {
                        assert(lex_ids(before).contains(lex_ids(distinct@)[a]));
                    } else {
                        assert(lex_ids(before).contains(lex_ids(distinct@)[b]));
                    }
                }
            }
        } else {
            proof {
                assert(lex_ids(before).to_set().contains(x));
                assert(lex_ids(before).to_set().insert(x) =~= lex_ids(before).to_set());
            }
        }
    }
    proof {
        assert(resolved@.take(resolved@.len() as int) =~= resolved@);
        lex_ids(distinct@).unique_seq_to_set();
    }
    LexemeCount { forms: resolved.len() as i64, lexemes: distinct.len() as i64 }
}

/// The words known do not depend on the order the forms were learned in: two
/// lists holding the same known forms, in any order, resolve to the same set
/// of lexemes — and so to the same count.
pub proof fn lexemes_ignore_order(a: Seq<KnownForm>, b: Seq<KnownForm>, ra: Seq<(Term, Lexeme)>, rb: Seq<(Term, Lexeme)>)
    requires
        form_set(a) == form_set(b),
        resolved(ra, a),
        resolved(rb, b),
    ensures
        lexeme_set(ra) == lexeme_set(rb),
{
    let s = form_set(a);
    assert forall|x: LexemeId| lexeme_set(ra).contains(x) implies lexeme_set(rb).contains(x) by {
        let sa = ra.map_values(|p: (Term, Lexeme)| p.1.id());
        let i = choose|i: int| 0 <= i < sa.len() && sa[i] == x;
        assert(ra[i].1.id() == lexeme_id_of(s, form_view(a[i])));
        lemma_in_form_set(a, i);
        lemma_from_form_set(b, form_view(a[i]));
        let k = choose|k: int| 0 <= k < b.len() && form_view(#[trigger] b[k]) == form_view(a[i]);
        assert(rb[k].1.id() == lexeme_id_of(s, form_view(b[k])));
        assert(rb.map_values(|p: (Term, Lexeme)| p.1.id())[k] == x);
    }
    assert forall|x: LexemeId| lexeme_set(rb).contains(x) implies lexeme_set(ra).contains(x) by {
        let sb = rb.map_values(|p: (Term, Lexeme)| p.1.id());
        let i = choose|i: int| 0 <= i < sb.len() && sb[i] == x;
        assert(rb[i].1.id() == lexeme_id_of(s, form_view(b[i])));
        lemma_in_form_set(b, i);
        lemma_from_form_set(a, form_view(b[i]));
        let k = choose|k: int| 0 <= k < a.len() && form_view(#[trigger] a[k]) == form_view(b[i]);
        assert(ra[k].1.id() == lexeme_id_of(s, form_view(a[k])));
        assert(ra.map_values(|p: (Term, Lexeme)| p.1.id())[k] == x);
    }
    assert(lexeme_set(ra) =~= lexeme_set(rb));
}

} // verus!
