//! The dictionary-backed half of the tokenizer: what the master dictionary
//! lists, how it reads its headwords, how common each is, and the decisions
//! built on those — the wordhood gate, the identity ladder, and the
//! recomposition of compounds Sudachi's own lexicon takes apart.
use vstd::prelude::*;
use vstd::hash_map::StringHashMap;
use vstd::hash_set::StringHashSet;
use crate::knowledge::dictionaries::PreferredReading;
use crate::strings::{concat, same};
use crate::tables::{best_rank, better, holds, string_set, Groups, PairRanks};
use crate::text::kana::{all_kana, hiragana, is_all_kana, to_hiragana};
use crate::tokenize::{content_pos, continues_conjugation, reads_as, spoken, Token};
use crate::tokenize::trace::{extends, extends_trans, grew_by_one, grew_extends, grew_grows, grows_at_least, grows_none, grows_trans, Step, Trace, Verdict};

verus! {

broadcast use vstd::seq_lib::group_seq_properties;

/// `x` added to `s` unless it is already there.
pub open spec fn add_unique(s: Seq<Seq<char>>, x: Seq<char>) -> Seq<Seq<char>> {
    if s.contains(x) { s } else { s.push(x) }
}

/// The headwords filed under reading `rd`, starting from `base`, once the
/// first `n` entries are added in order.
pub open spec fn filed_under(base: Seq<Seq<char>>, es: Seq<(Seq<char>, Seq<char>)>, n: int, rd: Seq<char>) -> Seq<Seq<char>>
    decreases n,
{
    if n <= 0 {
        base
    } else {
        let g = filed_under(base, es, n - 1, rd);
        if reads_as(es, n - 1, rd) { add_unique(g, es[n - 1].0) } else { g }
    }
}

/// A headword's reading once the first `n` entries are added: the one it had,
/// else the first entry's that gives it one.
pub open spec fn first_reading(base: Option<Seq<char>>, es: Seq<(Seq<char>, Seq<char>)>, n: int, t: Seq<char>) -> Option<Seq<char>>
    decreases n,
{
    if n <= 0 {
        base
    } else {
        let r = first_reading(base, es, n - 1, t);
        if r is None && 0 <= n - 1 < es.len() && es[n - 1].0 == t && es[n - 1].1.len() > 0 {
            Some(hiragana(es[n - 1].1))
        } else {
            r
        }
    }
}

/// The rank a map files under `t`.
pub open spec fn map_rank(m: Map<Seq<char>, i64>, t: Seq<char>) -> Option<i64> {
    if m.contains_key(t) { Some(m[t]) } else { None }
}

/// The smaller of two optional ranks.
pub open spec fn min_rank(a: Option<i64>, b: Option<i64>) -> Option<i64> {
    match (a, b) {
        (Some(x), Some(y)) => Some(if x <= y { x } else { y }),
        (Some(x), None) => Some(x),
        (None, y) => y,
    }
}

/// The best rank any row gives `term`, whatever its reading.
pub open spec fn best_any_reading(rows: Seq<((Seq<char>, Seq<char>), i64)>, term: Seq<char>) -> Option<i64>
    decreases rows.len(),
{
    if rows.len() == 0 {
        None
    } else {
        let before = best_any_reading(rows.drop_last(), term);
        if rows.last().0.0 == term { Some(better(before, rows.last().1)) } else { before }
    }
}

/// The tokenizer's tables, each empty until taught.
pub struct TokenRules {
    mined: StringHashSet,
    lexicon: StringHashSet,
    by_reading: Groups,
    term_reading: StringHashMap<String>,
    pairs: Groups,
    readings_loaded: bool,
    frequency: PairRanks,
    frequency_any_reading: StringHashMap<i64>,
    preferred: StringHashMap<PreferredReading>,
    conjugatable: StringHashSet,
}

impl TokenRules {
    /// A word mined into the deck.
    pub closed spec fn mined_has(&self, s: Seq<char>) -> bool { self.mined@.contains(s) }
    pub closed spec fn mined_empty(&self) -> bool { self.mined@.is_empty() }
    /// A headword the master lists.
    pub closed spec fn lexicon_has(&self, s: Seq<char>) -> bool { self.lexicon@.contains(s) }
    pub closed spec fn lexicon_empty(&self) -> bool { self.lexicon@.is_empty() }
    /// The master headwords that read `rd`, in the order they were taught.
    pub closed spec fn read_as(&self, rd: Seq<char>) -> Seq<Seq<char>> { self.by_reading.of(rd) }
    /// The reading a headword is filed under.
    pub closed spec fn reading_of(&self, t: Seq<char>) -> Option<Seq<char>> {
        if self.term_reading@.contains_key(t) { Some(self.term_reading@[t]@) } else { None }
    }
    /// A `(headword, hiragana reading)` pair the master lists.
    pub closed spec fn pair_listed(&self, h: Seq<char>, r: Seq<char>) -> bool { self.pairs.of(h).contains(r) }
    /// Whether any master reading has been taught.
    pub closed spec fn readings_loaded(&self) -> bool { self.readings_loaded }
    pub closed spec fn pair_rank(&self, t: Seq<char>, r: Seq<char>) -> Option<i64> { self.frequency.rank(t, r) }
    pub closed spec fn any_rank(&self, t: Seq<char>) -> Option<i64> {
        map_rank(self.frequency_any_reading@, t)
    }
    /// The preferred and acceptable readings of a headword, if it has a preference.
    pub closed spec fn preference(&self, t: Seq<char>) -> Option<(Seq<char>, Seq<Seq<char>>)> {
        if self.preferred@.contains_key(t) { Some(self.preferred@[t].deep_view()) } else { None }
    }
    pub closed spec fn conjugatable_has(&self, t: Seq<char>) -> bool { self.conjugatable@.contains(t) }
    pub closed spec fn conjugatable_empty(&self) -> bool { self.conjugatable@.is_empty() }

    /// The readings part of the invariant: every listed pair came with a
    /// reading, so a headword filed under a reading means one was taught.
    pub closed spec fn wf(&self) -> bool {
        &&& (forall|h: Seq<char>, r: Seq<char>| #[trigger] self.pairs.of(h).contains(r) ==> self.readings_loaded)
        &&& (forall|rd: Seq<char>| (#[trigger] self.by_reading.of(rd)).len() > 0 ==> self.readings_loaded)
        &&& (forall|rd: Seq<char>| (#[trigger] self.by_reading.of(rd)).no_duplicates())
    }

    /// Rules that know only the mined deck.
    pub fn new(mined: Vec<String>) -> (r: TokenRules)
        ensures
            r.wf(),
            forall|s: Seq<char>| #[trigger] r.mined_has(s) == mined.deep_view().contains(s),
            r.mined_empty() == (mined.len() == 0),
            r.lexicon_empty(),
            forall|s: Seq<char>| !#[trigger] r.lexicon_has(s),
            !r.readings_loaded(),
            forall|rd: Seq<char>| #[trigger] r.read_as(rd) == Seq::<Seq<char>>::empty(),
            forall|t: Seq<char>| #[trigger] r.reading_of(t) is None,
            forall|h: Seq<char>, rd: Seq<char>| !#[trigger] r.pair_listed(h, rd),
            forall|t: Seq<char>, rd: Seq<char>| #[trigger] r.pair_rank(t, rd) is None,
            forall|t: Seq<char>| #[trigger] r.any_rank(t) is None,
            forall|t: Seq<char>| #[trigger] r.preference(t) is None,
            r.conjugatable_empty(),
            forall|t: Seq<char>| !#[trigger] r.conjugatable_has(t),
    {
        let set = string_set(&mined);
        let lexicon = StringHashSet::new();
        let conjugatable = StringHashSet::new();
        proof {
            assert(lexicon@ =~= Set::<Seq<char>>::empty());
            assert(conjugatable@ =~= Set::<Seq<char>>::empty());
        }
        TokenRules {
            mined: set,
            lexicon,
            by_reading: Groups::new(),
            term_reading: StringHashMap::new(),
            pairs: Groups::new(),
            readings_loaded: false,
            frequency: PairRanks::new(),
            frequency_any_reading: StringHashMap::new(),
            preferred: StringHashMap::new(),
            conjugatable,
        }
    }
}


} // verus!

verus! {

/// The preference a list gives a headword: its last row for it.
pub open spec fn last_preference(rows: Seq<(Seq<char>, (Seq<char>, Seq<Seq<char>>))>, t: Seq<char>) -> Option<(Seq<char>, Seq<Seq<char>>)>
    decreases rows.len(),
{
    if rows.len() == 0 {
        None
    } else if rows.last().0 == t {
        Some(rows.last().1)
    } else {
        last_preference(rows.drop_last(), t)
    }
}

impl TokenRules {
    pub open spec fn keeps_mined(&self, o: &TokenRules) -> bool {
        &&& forall|s: Seq<char>| #[trigger] self.mined_has(s) == o.mined_has(s)
        &&& self.mined_empty() == o.mined_empty()
    }

    pub open spec fn keeps_lexicon(&self, o: &TokenRules) -> bool {
        &&& forall|s: Seq<char>| #[trigger] self.lexicon_has(s) == o.lexicon_has(s)
        &&& self.lexicon_empty() == o.lexicon_empty()
    }

    pub open spec fn keeps_readings(&self, o: &TokenRules) -> bool {
        &&& forall|rd: Seq<char>| #[trigger] self.read_as(rd) == o.read_as(rd)
        &&& forall|t: Seq<char>| #[trigger] self.reading_of(t) == o.reading_of(t)
        &&& forall|h: Seq<char>, rd: Seq<char>| #[trigger] self.pair_listed(h, rd) == o.pair_listed(h, rd)
        &&& self.readings_loaded() == o.readings_loaded()
    }

    pub open spec fn keeps_frequency(&self, o: &TokenRules) -> bool {
        &&& forall|t: Seq<char>, rd: Seq<char>| #[trigger] self.pair_rank(t, rd) == o.pair_rank(t, rd)
        &&& forall|t: Seq<char>| #[trigger] self.any_rank(t) == o.any_rank(t)
    }

    pub open spec fn keeps_preferences(&self, o: &TokenRules) -> bool {
        forall|t: Seq<char>| #[trigger] self.preference(t) == o.preference(t)
    }

    pub open spec fn keeps_conjugatable(&self, o: &TokenRules) -> bool {
        &&& forall|t: Seq<char>| #[trigger] self.conjugatable_has(t) == o.conjugatable_has(t)
        &&& self.conjugatable_empty() == o.conjugatable_empty()
    }

    /// Teach it which words the master dictionary lists — the set that decides
    /// whether a compound is a word.
    pub fn with_lexicon(self, lexicon: Vec<String>) -> (r: TokenRules)
        requires
            self.wf(),
        ensures
            r.wf(),
            forall|s: Seq<char>| #[trigger] r.lexicon_has(s) == lexicon.deep_view().contains(s),
            r.lexicon_empty() == (lexicon.len() == 0),
            r.keeps_mined(&self),
            r.keeps_readings(&self),
            r.keeps_frequency(&self),
            r.keeps_preferences(&self),
            r.keeps_conjugatable(&self),
    {
        let set = string_set(&lexicon);
        TokenRules { lexicon: set, ..self }
    }

    /// Teach it which master headwords are conjugatable lemmas, so an inflected
    /// token cannot be filed under an entry that does not conjugate.
    pub fn with_conjugatable(self, terms: Vec<String>) -> (r: TokenRules)
        requires
            self.wf(),
        ensures
            r.wf(),
            forall|s: Seq<char>| #[trigger] r.conjugatable_has(s) == terms.deep_view().contains(s),
            r.conjugatable_empty() == (terms.len() == 0),
            r.keeps_mined(&self),
            r.keeps_lexicon(&self),
            r.keeps_readings(&self),
            r.keeps_frequency(&self),
            r.keeps_preferences(&self),
    {
        let set = string_set(&terms);
        TokenRules { conjugatable: set, ..self }
    }

    /// Teach it which reading to believe where Sudachi's cost model is known
    /// to pick a dead one.
    pub fn with_preferred_readings(self, readings: Vec<(String, PreferredReading)>) -> (r: TokenRules)
        requires
            self.wf(),
        ensures
            r.wf(),
            forall|t: Seq<char>| #[trigger] r.preference(t) == last_preference(readings.deep_view(), t),
            r.keeps_mined(&self),
            r.keeps_lexicon(&self),
            r.keeps_readings(&self),
            r.keeps_frequency(&self),
            r.keeps_conjugatable(&self),
    {
        let ghost rows = readings.deep_view();
        let mut map: StringHashMap<PreferredReading> = StringHashMap::new();
        for row in it: readings
            invariant
                rows == it.seq().map_values(|p: (String, PreferredReading)| p.deep_view()),
                forall|t: Seq<char>| (if map@.contains_key(t) { Some(map@[t].deep_view()) } else { None })
                    == #[trigger] last_preference(rows.take(it.index() as int), t),
        {
            let ghost k = it.index() as int;
            proof {
                assert(rows.take(k + 1).drop_last() =~= rows.take(k));
                assert(rows.take(k + 1).last() == rows[k]);
                assert(rows[k] == row.deep_view());
            }
            let (term, pref) = row;
            assert((term@, pref.deep_view()) == rows[k]);
            let ghost key = term@;
            let ghost value = pref.deep_view();
            let ghost before = map@;
            map.insert(term, pref);
            proof {
                assert(map@[key].deep_view() == value);
                assert forall|t: Seq<char>| (if map@.contains_key(t) { Some(map@[t].deep_view()) } else { None })
                    == #[trigger] last_preference(rows.take(k + 1), t) by {
                    let prefix = rows.take(k + 1);
                    assert(prefix.last() == rows[k] && prefix.drop_last() =~= rows.take(k));
                    if t == key {
                        assert(last_preference(prefix, t) == Some(value));
                    } else {
                        assert(last_preference(prefix, t) == last_preference(rows.take(k), t));
                        assert(map@.contains_key(t) == before.contains_key(t));
                        if before.contains_key(t) {
                            assert(map@[t] == before[t]);
                        }
                    }
                }
            }
        }
        proof { assert(rows.take(rows.len() as int) =~= rows); }
        TokenRules { preferred: map, ..self }
    }
}

} // verus!

verus! {

proof fn lemma_frame_readings(before: &TokenRules, after: &TokenRules, start: &TokenRules)
    requires
        after.mined == before.mined,
        after.lexicon == before.lexicon,
        after.frequency == before.frequency,
        after.frequency_any_reading == before.frequency_any_reading,
        after.preferred == before.preferred,
        after.conjugatable == before.conjugatable,
        before.keeps_mined(start),
        before.keeps_lexicon(start),
        before.keeps_frequency(start),
        before.keeps_preferences(start),
        before.keeps_conjugatable(start),
    ensures
        after.keeps_mined(start),
        after.keeps_lexicon(start),
        after.keeps_frequency(start),
        after.keeps_preferences(start),
        after.keeps_conjugatable(start),
{
    assert(forall|x: Seq<char>| #[trigger] after.mined_has(x) == before.mined_has(x));
    assert(forall|x: Seq<char>| #[trigger] after.lexicon_has(x) == before.lexicon_has(x));
    assert(forall|x: Seq<char>, y: Seq<char>| #[trigger] after.pair_rank(x, y) == before.pair_rank(x, y));
    assert(forall|x: Seq<char>| #[trigger] after.any_rank(x) == before.any_rank(x));
    assert(forall|x: Seq<char>| #[trigger] after.preference(x) == before.preference(x));
    assert(forall|x: Seq<char>| #[trigger] after.conjugatable_has(x) == before.conjugatable_has(x));
}

impl TokenRules {
    /// Teach it how the master dictionary *reads* its headwords: the
    /// `(headword, reading)` pairs an identity has to be one of, each reading's
    /// headwords, and each headword's own reading. Readings fold to hiragana;
    /// an entry with no reading teaches nothing.
    pub fn with_master_readings(self, entries: &[(String, String)]) -> (r: TokenRules)
        requires
            self.wf(),
        ensures
            r.wf(),
            forall|rd: Seq<char>| #[trigger] r.read_as(rd)
                == filed_under(self.read_as(rd), entries.deep_view(), entries.len() as int, rd),
            forall|t: Seq<char>| #[trigger] r.reading_of(t)
                == first_reading(self.reading_of(t), entries.deep_view(), entries.len() as int, t),
            forall|h: Seq<char>, rd: Seq<char>| #[trigger] r.pair_listed(h, rd)
                == (self.pair_listed(h, rd) || exists|k: int| reads_as(entries.deep_view(), k, rd) && (#[trigger] entries.deep_view()[k]).0 == h),
            r.readings_loaded() == (self.readings_loaded() || exists|k: int| 0 <= k < entries.len() && (#[trigger] entries.deep_view()[k]).1.len() > 0),
            r.keeps_mined(&self),
            r.keeps_lexicon(&self),
            r.keeps_frequency(&self),
            r.keeps_preferences(&self),
            r.keeps_conjugatable(&self),
    {
        let ghost es = entries.deep_view();
        let ghost start = self;
        let mut rules = self;
        for i in 0..entries.len()
            invariant
                es == entries.deep_view(),
                rules.wf(),
                rules.keeps_mined(&start),
                rules.keeps_lexicon(&start),
                rules.keeps_frequency(&start),
                rules.keeps_preferences(&start),
                rules.keeps_conjugatable(&start),
                forall|rd: Seq<char>| #[trigger] rules.read_as(rd) == filed_under(start.read_as(rd), es, i as int, rd),
                forall|t: Seq<char>| #[trigger] rules.reading_of(t) == first_reading(start.reading_of(t), es, i as int, t),
                forall|h: Seq<char>, rd: Seq<char>| #[trigger] rules.pair_listed(h, rd)
                    == (start.pair_listed(h, rd) || exists|k: int| 0 <= k < i && reads_as(es, k, rd) && (#[trigger] es[k]).0 == h),
                rules.readings_loaded() == (start.readings_loaded() || exists|k: int| 0 <= k < i && (#[trigger] es[k]).1.len() > 0),
        {
            let ghost e = es[i as int];
            assert(e == (entries[i as int].0@, entries[i as int].1@));
            let ghost before = rules;
            if !entries[i].1.as_str().is_empty() {
                let reading = to_hiragana(entries[i].1.as_str());
                rules.pairs.add(entries[i].0.clone(), reading.clone());
                if !rules.term_reading.contains_key(entries[i].0.as_str()) {
                    rules.term_reading.insert(entries[i].0.clone(), reading.clone());
                }
                rules.by_reading.add(reading, entries[i].0.clone());
                rules.readings_loaded = true;
                proof {
                    lemma_frame_readings(&before, &rules, &start);
                    let rd0 = hiragana(e.1);
                    assert(reads_as(es, i as int, rd0));
                    assert forall|rd: Seq<char>| #[trigger] rules.read_as(rd) == filed_under(start.read_as(rd), es, i as int + 1, rd) by {
                        assert(before.read_as(rd) == filed_under(start.read_as(rd), es, i as int, rd));
                    }
                    assert forall|t: Seq<char>| #[trigger] rules.reading_of(t) == first_reading(start.reading_of(t), es, i as int + 1, t) by {
                        assert(before.reading_of(t) == first_reading(start.reading_of(t), es, i as int, t));
                    }
                    assert forall|h: Seq<char>, rd: Seq<char>| #[trigger] rules.pair_listed(h, rd)
                        == (start.pair_listed(h, rd) || exists|k: int| 0 <= k < i + 1 && reads_as(es, k, rd) && (#[trigger] es[k]).0 == h) by {
                        assert(before.pair_listed(h, rd) == (start.pair_listed(h, rd) || exists|k: int| 0 <= k < i && reads_as(es, k, rd) && (#[trigger] es[k]).0 == h));
                        if exists|k: int| 0 <= k < i + 1 && reads_as(es, k, rd) && (#[trigger] es[k]).0 == h {
                            let k = choose|k: int| 0 <= k < i + 1 && reads_as(es, k, rd) && (#[trigger] es[k]).0 == h;
                            if k < i {
                                assert(exists|k: int| 0 <= k < i && reads_as(es, k, rd) && (#[trigger] es[k]).0 == h);
                            }
                        }
                    }
                    assert(es[i as int].1.len() > 0);
                }
            } else {
                proof {
                    assert(!reads_as(es, i as int, hiragana(e.1)));
                    assert forall|rd: Seq<char>| #[trigger] rules.read_as(rd) == filed_under(start.read_as(rd), es, i as int + 1, rd) by {
                        assert(before.read_as(rd) == filed_under(start.read_as(rd), es, i as int, rd));
                    }
                    assert forall|t: Seq<char>| #[trigger] rules.reading_of(t) == first_reading(start.reading_of(t), es, i as int + 1, t) by {
                        assert(before.reading_of(t) == first_reading(start.reading_of(t), es, i as int, t));
                    }
                    assert forall|h: Seq<char>, rd: Seq<char>| #[trigger] rules.pair_listed(h, rd)
                        == (start.pair_listed(h, rd) || exists|k: int| 0 <= k < i + 1 && reads_as(es, k, rd) && (#[trigger] es[k]).0 == h) by {
                        assert(before.pair_listed(h, rd) == (start.pair_listed(h, rd) || exists|k: int| 0 <= k < i && reads_as(es, k, rd) && (#[trigger] es[k]).0 == h));
                        if exists|k: int| 0 <= k < i + 1 && reads_as(es, k, rd) && (#[trigger] es[k]).0 == h {
                            let k = choose|k: int| 0 <= k < i + 1 && reads_as(es, k, rd) && (#[trigger] es[k]).0 == h;
                            assert(k < i);
                        }
                    }
                    assert forall|k: int| 0 <= k < i + 1 && (#[trigger] es[k]).1.len() > 0 implies k < i by {}
                }
            }
        }
        rules
    }
}

} // verus!

verus! {

impl TokenRules {
    /// Teach it how common each master headword is, per `(headword, reading)`,
    /// so a reading naming several of them can still yield an identity. Each
    /// headword's best rank over every reading is kept beside it.
    pub fn with_frequency(self, ranks: Vec<((String, String), i64)>) -> (r: TokenRules)
        requires
            self.wf(),
        ensures
            r.wf(),
            forall|t: Seq<char>, rd: Seq<char>| #[trigger] r.pair_rank(t, rd) == best_rank(ranks.deep_view(), (t, rd)),
            forall|t: Seq<char>| #[trigger] r.any_rank(t) == min_rank(self.any_rank(t), best_any_reading(ranks.deep_view(), t)),
            r.keeps_mined(&self),
            r.keeps_lexicon(&self),
            r.keeps_readings(&self),
            r.keeps_preferences(&self),
            r.keeps_conjugatable(&self),
    {
        let ghost rows = ranks.deep_view();
        let ghost start = self;
        let mut table = PairRanks::new();
        let mut any = self.frequency_any_reading;
        proof {
            assert(rows.take(0) =~= Seq::<((Seq<char>, Seq<char>), i64)>::empty());
            assert(forall|t: Seq<char>| #[trigger] map_rank(any@, t) == start.any_rank(t));
        }
        for i in 0..ranks.len()
            invariant
                rows == ranks.deep_view(),
                forall|t: Seq<char>, rd: Seq<char>| #[trigger] table.rank(t, rd) == best_rank(rows.take(i as int), (t, rd)),
                forall|t: Seq<char>| #[trigger] map_rank(any@, t)
                    == min_rank(start.any_rank(t), best_any_reading(rows.take(i as int), t)),
        {
            let ghost row = rows[i as int];
            let term = ranks[i].0.0.clone();
            let reading = ranks[i].0.1.clone();
            let rank = ranks[i].1;
            assert(row == ((term@, reading@), rank));
            let ghost prefix = rows.take(i as int + 1);
            proof {
                assert(prefix.drop_last() =~= rows.take(i as int));
                assert(prefix.last() == row);
            }
            let best = match any.get(term.as_str()) {
                Some(b) => if *b <= rank { *b } else { rank },
                None => rank,
            };
            let ghost any_before = any@;
            any.insert(term.clone(), best);
            table.add(term, reading, rank);
            proof {
                assert forall|t: Seq<char>, rd: Seq<char>| #[trigger] table.rank(t, rd) == best_rank(prefix, (t, rd)) by {}
                assert forall|t: Seq<char>| #[trigger] map_rank(any@, t)
                    == min_rank(start.any_rank(t), best_any_reading(prefix, t)) by {
                    assert(map_rank(any_before, t) == min_rank(start.any_rank(t), best_any_reading(rows.take(i as int), t)));
                }
            }
        }
        proof { assert(rows.take(rows.len() as int) =~= rows); }
        let r = TokenRules { frequency: table, frequency_any_reading: any, ..self };
        proof {
            assert(forall|x: Seq<char>| #[trigger] r.mined_has(x) == start.mined_has(x));
            assert(forall|x: Seq<char>| #[trigger] r.lexicon_has(x) == start.lexicon_has(x));
            assert(forall|x: Seq<char>| #[trigger] r.read_as(x) == start.read_as(x));
            assert(forall|x: Seq<char>| #[trigger] r.reading_of(x) == start.reading_of(x));
            assert(forall|x: Seq<char>, y: Seq<char>| #[trigger] r.pair_listed(x, y) == start.pair_listed(x, y));
            assert(forall|x: Seq<char>| #[trigger] r.preference(x) == start.preference(x));
            assert(forall|x: Seq<char>| #[trigger] r.conjugatable_has(x) == start.conjugatable_has(x));
            assert(forall|x: Seq<char>| #[trigger] r.any_rank(x) == map_rank(any@, x));
        }
        r
    }
}

} // verus!

verus! {

/// One morpheme of Sudachi's analysis, as plain values: what the rules read of
/// it, and the readings that needed the dictionary to look up.
pub struct Morph {
    pub surface: String,
    pub dictionary_form: String,
    pub normalized_form: String,
    /// The reading of the surface, in katakana.
    pub reading_form: String,
    /// The reading of the dictionary form — not of the surface, which for a
    /// conjugated verb is a stem (振っ reads フッ, 振る reads フル).
    pub lemma_reading: String,
    /// The part-of-speech tuple: 名詞, 固有名詞, 人名, …
    pub pos: Vec<String>,
    /// What some of its spellings read as when tokenized alone, where that
    /// gives back exactly one morpheme whose dictionary form is the spelling.
    pub rederived: Vec<(String, String)>,
}

/// The reading `rows` gives `term`: its first row for it.
pub open spec fn rederived_in(rows: Seq<(Seq<char>, Seq<char>)>, term: Seq<char>) -> Option<Seq<char>>
    decreases rows.len(),
{
    if rows.len() == 0 {
        None
    } else if rows[0].0 == term {
        Some(rows[0].1)
    } else {
        rederived_in(rows.drop_first(), term)
    }
}

/// What `m`'s spelling `term` reads as when tokenized alone.
pub open spec fn rederive(m: Morph, term: Seq<char>) -> Option<Seq<char>> {
    rederived_in(m.rederived.deep_view(), term)
}

/// The reading a morpheme's spelling reads as on its own.
pub fn rederived_reading(m: &Morph, term: &str) -> (r: Option<String>)
    ensures
        r matches Some(s) ==> rederive(*m, term@) == Some(s@),
        r is None ==> rederive(*m, term@) is None,
{
    let mut i: usize = 0;
    while i < m.rederived.len()
        invariant
            i <= m.rederived.len(),
            rederive(*m, term@) == rederived_in(m.rederived.deep_view().skip(i as int), term@),
        decreases m.rederived.len() - i,
    {
        proof {
            let rest = m.rederived.deep_view().skip(i as int);
            assert(rest.drop_first() =~= m.rederived.deep_view().skip(i as int + 1));
            assert(rest[0] == m.rederived.deep_view()[i as int]);
        }
        if same(m.rederived[i].0.as_str(), term) {
            return Some(m.rederived[i].1.clone());
        }
        i = i + 1;
    }
    None
}

impl TokenRules {
    /// A kana headword stores no reading, so it is listed when the lexicon has
    /// it; any other is listed as a pair, the reading folded to hiragana.
    pub open spec fn lists_spec(&self, headword: Seq<char>, reading: Seq<char>) -> bool {
        if all_kana(headword) {
            self.lexicon_has(headword)
        } else {
            self.pair_listed(headword, hiragana(reading))
        }
    }

    /// Does the master dictionary list this identity?
    pub fn lists(&self, headword: &str, reading: &str) -> (r: bool)
        ensures
            r == self.lists_spec(headword@, reading@),
    {
        if is_all_kana(headword) {
            return self.lexicon.contains(headword);
        }
        let folded = to_hiragana(reading);
        match self.pairs.get(headword) {
            Some(v) => holds(v, folded.as_str()),
            None => false,
        }
    }

    /// The pair's rank, falling back to the headword's best over every reading.
    pub open spec fn rank_spec(&self, term: Seq<char>, reading: Seq<char>) -> Option<i64> {
        match self.pair_rank(term, reading) {
            Some(v) => Some(v),
            None => self.any_rank(term),
        }
    }

    pub fn rank(&self, term: &str, reading: &str) -> (r: Option<i64>)
        ensures
            r == self.rank_spec(term@, reading@),
    {
        match self.frequency.get(term, reading) {
            Some(v) => Some(v),
            None => match self.frequency_any_reading.get(term) {
                Some(v) => Some(*v),
                None => None,
            },
        }
    }

    /// Among `g[i..]`, the first headword of the lowest rank, given the best so
    /// far; unranked headwords take no part.
    pub open spec fn best_from(&self, g: Seq<Seq<char>>, rd: Seq<char>, i: int, best: Option<(Seq<char>, i64)>) -> Option<Seq<char>>
        decreases g.len() - i,
    {
        if i < 0 || i >= g.len() {
            match best {
                Some(b) => Some(b.0),
                None => None,
            }
        } else {
            match self.rank_spec(g[i], rd) {
                Some(v) => if (match best { Some(b) => v < b.1, None => true }) {
                    self.best_from(g, rd, i + 1, Some((g[i], v)))
                } else {
                    self.best_from(g, rd, i + 1, best)
                },
                None => self.best_from(g, rd, i + 1, best),
            }
        }
    }

    /// The headword a reading names: the only one, or among several the most
    /// common, or none when no candidate is ranked.
    pub open spec fn named_by_reading(&self, rd: Seq<char>) -> Option<Seq<char>> {
        let g = self.read_as(rd);
        if g.len() == 0 {
            None
        } else if g.len() == 1 {
            Some(g[0])
        } else {
            self.best_from(g, rd, 0, None)
        }
    }

    /// The headword a reading names, arbitrated by frequency when it names
    /// several. No rank for any candidate — refuse rather than guess blind.
    pub fn headword_for_reading(&self, reading: &str) -> (r: Option<String>)
        ensures
            r matches Some(s) ==> self.named_by_reading(reading@) == Some(s@),
            r is None ==> self.named_by_reading(reading@) is None,
    {
        let g = match self.by_reading.get(reading) {
            Some(g) => g,
            None => return None,
        };
        if g.len() == 1 {
            return Some(g[0].clone());
        }
        let ghost gs = g.deep_view();
        let mut best: Option<(usize, i64)> = None;
        for i in 0..g.len()
            invariant
                gs == g.deep_view(),
                gs == self.read_as(reading@),
                best matches Some(b) ==> b.0 < i,
                self.best_from(gs, reading@, 0, None) == self.best_from(gs, reading@, i as int, match best {
                    Some(b) => Some((gs[b.0 as int], b.1)),
                    None => None,
                }),
        {
            match self.rank(g[i].as_str(), reading) {
                Some(v) => {
                    let better_here = match best {
                        Some(b) => v < b.1,
                        None => true,
                    };
                    if better_here {
                        best = Some((i, v));
                    }
                },
                None => {},
            }
        }
        match best {
            Some(b) => Some(g[b.0].clone()),
            None => None,
        }
    }

    /// Whether an inflected token may be filed under this headword: it has to
    /// conjugate. Kana headwords are exempt (the auxiliaries みる, いる, なる
    /// carry no rules tag), and with no conjugation data the question cannot be
    /// asked.
    pub open spec fn conjugatable_lemma_spec(&self, term: Seq<char>) -> bool {
        self.conjugatable_empty() || self.conjugatable_has(term) || all_kana(term)
    }

    pub fn conjugatable_lemma(&self, term: &str) -> (r: bool)
        ensures
            r == self.conjugatable_lemma_spec(term@),
    {
        proof { assert(self.conjugatable@.is_empty() == (self.conjugatable@ =~= Set::<Seq<char>>::empty())); }
        self.conjugatable.is_empty() || self.conjugatable.contains(term) || is_all_kana(term)
    }

    /// The reading to correct a validated pair to, where the surface is all
    /// kanji (so the reading is Sudachi's guess, not the text's), the token is
    /// the free-standing word, the headword has a preference, the reading is
    /// not one of the acceptable ones, and the master lists the preferred one.
    pub open spec fn overrule(&self, term: Seq<char>, reading: Seq<char>, surface: Seq<char>, pos: Seq<Seq<char>>) -> Option<Seq<char>> {
        if surface.len() == 0 || !(forall|i: int| 0 <= i < surface.len() ==> crate::text::kanji::kanji_char(#[trigger] surface[i])) {
            None
        } else if crate::tokenize::bound_morpheme(pos) {
            None
        } else {
            match self.preference(term) {
                None => None,
                Some(p) => {
                    let r = hiragana(reading);
                    if p.1.contains(r) || p.0 == r {
                        None
                    } else if self.lists_spec(term, p.0) {
                        Some(p.0)
                    } else {
                        None
                    }
                },
            }
        }
    }

    /// Correct a validated pair whose reading is one the language has moved
    /// off: every bare 私 came out わたくし.
    pub fn preferred_reading(&self, term: &str, reading: &str, surface: &str, pos: &[String]) -> (r: Option<String>)
        ensures
            r matches Some(s) ==> self.overrule(term@, reading@, surface@, pos.deep_view()) == Some(s@),
            r is None ==> self.overrule(term@, reading@, surface@, pos.deep_view()) is None,
    {
        if surface.is_empty() || !crate::text::kanji::all_kanji(surface) {
            return None;
        }
        if crate::tokenize::is_bound_morpheme(pos) {
            return None;
        }
        let pref = match self.preferred.get(term) {
            Some(p) => p,
            None => return None,
        };
        let folded = to_hiragana(reading);
        if holds(&pref.acceptable, folded.as_str()) || same(pref.preferred.as_str(), folded.as_str()) {
            return None;
        }
        if self.lists(term, pref.preferred.as_str()) {
            Some(pref.preferred.clone())
        } else {
            None
        }
    }
}

} // verus!

verus! {

/// A token as values: surface, base form, reading, part of speech, and the
/// proper-noun, subsidiary and inflected flags.
pub type TokenView = (Seq<char>, Seq<char>, Seq<char>, Seq<char>, bool, bool, bool);

pub open spec fn tv(t: Token) -> TokenView {
    (t.surface@, t.base_form@, t.reading@, t.pos@, t.proper_noun, t.subsidiary, t.inflected)
}

/// The surfaces of a run, one after another.
pub open spec fn surfaces_of(ts: Seq<Token>) -> Seq<char>
    decreases ts.len(),
{
    if ts.len() == 0 { Seq::empty() } else { surfaces_of(ts.drop_last()) + ts.last().surface@ }
}

/// How a run of heads sounds, one after another.
pub open spec fn spoken_of(ts: Seq<Token>) -> Seq<char>
    decreases ts.len(),
{
    if ts.len() == 0 { Seq::empty() } else { spoken_of(ts.drop_last()) + spoken(ts.last()) }
}

/// Expressions recomposition must never build, however the master spells
/// them: each is one reviewed judgement about one string.
pub open spec fn never_join(term: Seq<char>) -> bool {
    ||| term == "それは"@
    ||| term == "それが"@
    ||| term == "これは"@
    ||| term == "ここに"@
    ||| term == "ものを"@
    ||| term == "今日は"@
    ||| term == "たらしい"@
}

/// How many tokens recomposition will join at once.
pub const MAX_COMPOUND_PARTS: usize = 3;

impl TokenRules {
    /// A listed word the mined deck or the master has, under its dictionary
    /// form or its normalized form.
    pub open spec fn keeps_whole_spec(&self, m: Morph) -> bool {
        ||| self.mined_has(m.dictionary_form@) || self.lexicon_has(m.dictionary_form@)
        ||| self.mined_has(m.normalized_form@) || self.lexicon_has(m.normalized_form@)
    }

    /// Is this compound a word in its own right, so the C→B→A pass should stop
    /// here rather than take it apart?
    pub fn keeps_whole(&self, m: &Morph, trace: &mut Trace) -> (r: bool)
        ensures
            r == self.keeps_whole_spec(*m),
            final(trace).is_on() == old(trace).is_on(),
            grew_by_one(*old(trace), *final(trace)),
            old(trace).is_on() ==> (final(trace).recorded().last() matches Step::Gate { surface, kept, .. }
                && surface@ == m.surface@ && kept == r),
    {
        let dict = m.dictionary_form.as_str();
        let norm = m.normalized_form.as_str();
        let listed: Option<&str> = if self.mined.contains(dict) || self.lexicon.contains(dict) {
            Some(dict)
        } else if self.mined.contains(norm) || self.lexicon.contains(norm) {
            Some(norm)
        } else {
            None
        };
        if trace.is_recording() {
            let surface = m.surface.clone();
            let why = match listed {
                Some(f) => if self.lexicon.contains(f) {
                    concat("In master dictionary: ", f)
                } else {
                    concat("Mined in Anki: ", f)
                },
                None => {
                    let forms = if same(dict, norm) {
                        dict.to_owned()
                    } else {
                        concat(concat(dict, ", ").as_str(), norm)
                    };
                    concat(concat("Out of vocabulary: ", forms.as_str()).as_str(), " not found in any dictionary")
                },
            };
            let kept = listed.is_some();
            let ghost want = Step::Gate { surface: surface, kept: kept, why: why };
            trace.push(move || -> (s: Step)
                ensures
                    s == want,
                { Step::Gate { surface, kept, why } });
        }
        listed.is_some()
    }

    /// Whether a run may be joined on its reading alone: verb + verb with kana
    /// heads (しゃくり + あげる), or content words and suffixes with a kanji in
    /// the head (綺麗 + ごと).
    pub open spec fn reading_admitted(&self, run: Seq<Token>, content: bool) -> bool {
        let n = run.len();
        ||| (content && (forall|i: int| 0 <= i < n ==> (#[trigger] run[i]).pos@ == "動詞"@)
            && (forall|i: int| 0 <= i < n - 1 ==> all_kana((#[trigger] run[i]).surface@)))
        ||| ((forall|i: int| 0 <= i < n ==> content_pos((#[trigger] run[i]).pos@) || run[i].pos@ == "接尾辞"@)
            && (exists|i: int, j: int| 0 <= i < n - 1 && 0 <= j < run[i].surface@.len()
                && crate::text::kanji::kanji_char(#[trigger] run[i].surface@[j])))
    }

    /// The headword a candidate run names, and whether its parts spell it (as
    /// opposed to merely sounding like it).
    pub open spec fn join_choice(&self, run: Seq<Token>, before: Option<Token>) -> Option<(Seq<char>, bool)> {
        let n = run.len();
        let last = run[n - 1];
        let head = run.take(n - 1);
        let content = forall|i: int| 0 <= i < n ==> content_pos((#[trigger] run[i]).pos@);
        let surfaces = surfaces_of(run);
        let written = surfaces_of(head) + last.base_form@;
        let uninflected = forall|i: int| 0 <= i < n ==> !(#[trigger] run[i]).inflected;
        let mid = match before {
            Some(b) => continues_conjugation(b, run[0]),
            None => false,
        };
        if content && self.lexicon_has(written) {
            Some((written, true))
        } else if uninflected && !mid && self.lexicon_has(surfaces) {
            Some((surfaces, true))
        } else if self.reading_admitted(run, content) {
            let g = self.read_as(spoken_of(head) + hiragana(last.reading@));
            if g.len() == 1 { Some((g[0], false)) } else { None }
        } else {
            None
        }
    }

    /// What a candidate run joins into, if anything: see [`TokenRules::join_run`].
    pub open spec fn join_spec(&self, run: Seq<Token>, before: Option<Token>) -> Option<TokenView> {
        let n = run.len();
        let last = run[n - 1];
        if exists|i: int| 0 <= i < n && ((#[trigger] run[i]).surface@.len() == 0 || run[i].proper_noun) {
            None
        } else {
            match self.join_choice(run, before) {
                None => None,
                Some((term, spelled)) => {
                    let all_kanji = forall|i: int| 0 <= i < term.len() ==> crate::text::kanji::kanji_char(#[trigger] term[i]);
                    if term.len() < 3 && !(spelled && all_kanji) {
                        None
                    } else if never_join(term) {
                        None
                    } else {
                        let reading = match self.reading_of(term) {
                            Some(r) => r,
                            None => last.reading@,
                        };
                        if self.readings_loaded() && !self.lists_spec(term, reading) {
                            None
                        } else {
                            Some((surfaces_of(run), term, reading, last.pos@, false, false, false))
                        }
                    }
                },
            }
        }
    }
}

} // verus!

verus! {

/// The surfaces of a run, for the trace.
fn parts_of(run: &[Token]) -> (r: Vec<String>)
    ensures
        r.len() == run.len(),
        r.deep_view() == run@.map_values(|t: Token| t.surface@),
{
    let mut out: Vec<String> = Vec::new();
    for i in 0..run.len()
        invariant
            out.len() == i,
            out.deep_view() == run@.take(i as int).map_values(|t: Token| t.surface@),
    {
        out.push(run[i].surface.clone());
        proof {
            assert(run@.take(i as int + 1).map_values(|t: Token| t.surface@)
                =~= run@.take(i as int).map_values(|t: Token| t.surface@).push(run@[i as int].surface@));
            assert(out.deep_view() =~= run@.take(i as int).map_values(|t: Token| t.surface@).push(run@[i as int].surface@));
        }
    }
    proof { assert(run@.take(run@.len() as int) =~= run@); }
    out
}

/// Whether a step records the run spelled `parts` offered to recomposition,
/// joined into `joined` where that is `Some` and turned down where it is not.
pub open spec fn records_join(s: Step, parts: Seq<Seq<char>>, joined: Option<TokenView>) -> bool {
    s matches Step::Join { parts: ps, verdict } && ps.deep_view() == parts && match joined {
        Some(v) => verdict matches Verdict::Joined { term, reading, .. } && term@ == v.1 && reading@ == v.2,
        None => !(verdict is Joined),
    }
}

/// The surfaces of a run, each on its own.
pub open spec fn surface_list(ts: Seq<Token>) -> Seq<Seq<char>> {
    ts.map_values(|t: Token| t.surface@)
}

/// The trace after the runs `os` were offered to recomposition: one step
/// each, in order, after what it held, while recording; unchanged while not.
pub open spec fn records_joins(before: Trace, after: Trace, os: Seq<(Seq<Seq<char>>, Option<TokenView>)>) -> bool {
    &&& after.is_on() == before.is_on()
    &&& !before.is_on() ==> after.recorded() == before.recorded()
    &&& before.is_on() ==> {
        &&& after.recorded().len() == before.recorded().len() + os.len()
        &&& after.recorded().take(before.recorded().len() as int) == before.recorded()
        &&& forall|k: int| 0 <= k < os.len() ==> records_join(#[trigger] after.recorded()[before.recorded().len() + k], os[k].0, os[k].1)
    }
}

proof fn lemma_records_joins_append(a: Trace, b: Trace, c: Trace, os: Seq<(Seq<Seq<char>>, Option<TokenView>)>, more: Seq<(Seq<Seq<char>>, Option<TokenView>)>)
    requires
        records_joins(a, b, os),
        records_joins(b, c, more),
    ensures
        records_joins(a, c, os + more),
{
    if a.is_on() {
        let n0 = a.recorded().len() as int;
        let n1 = b.recorded().len() as int;
        assert(c.recorded().take(n0) =~= c.recorded().take(n1).take(n0));
        assert forall|k: int| 0 <= k < (os + more).len() implies
            records_join(#[trigger] c.recorded()[n0 + k], (os + more)[k].0, (os + more)[k].1) by {
            if k < os.len() {
                assert(c.recorded()[n0 + k] == c.recorded().take(n1)[n0 + k]);
            } else {
                assert(c.recorded()[n1 + (k - os.len())] == c.recorded()[n0 + k]);
            }
        }
    }
}

proof fn lemma_records_joins_push(a: Trace, b: Trace, c: Trace, os: Seq<(Seq<Seq<char>>, Option<TokenView>)>, o: (Seq<Seq<char>>, Option<TokenView>))
    requires
        records_joins(a, b, os),
        grew_by_one(b, c),
        b.is_on() ==> records_join(c.recorded().last(), o.0, o.1),
    ensures
        records_joins(a, c, os.push(o)),
{
    if a.is_on() {
        let n0 = a.recorded().len() as int;
        assert(c.recorded().drop_last() == b.recorded());
        assert(c.recorded().take(n0) =~= b.recorded().take(n0));
        assert forall|k: int| 0 <= k < os.push(o).len() implies
            records_join(#[trigger] c.recorded()[n0 + k], os.push(o)[k].0, os.push(o)[k].1) by {
            if k < os.len() {
                assert(c.recorded()[n0 + k] == b.recorded()[n0 + k]);
            } else {
                assert(c.recorded()[n0 + k] == c.recorded().last());
            }
        }
    }
}

/// The surfaces of the first `n` tokens, one after another.
fn surfaces_concat(ts: &[Token], n: usize) -> (r: String)
    requires
        n <= ts@.len(),
    ensures
        r@ == surfaces_of(ts@.take(n as int)),
{
    let mut out = String::new();
    for i in 0..n
        invariant
            n <= ts@.len(),
            out@ == surfaces_of(ts@.take(i as int)),
    {
        proof {
            let t = ts@.take(i as int + 1);
            assert(t.drop_last() =~= ts@.take(i as int));
            assert(t.last() == ts@[i as int]);
        }
        out = concat(out.as_str(), ts[i].surface.as_str());
    }
    out
}

/// How the first `n` tokens sound, one after another.
fn spoken_concat(ts: &[Token], n: usize) -> (r: String)
    requires
        n <= ts@.len(),
    ensures
        r@ == spoken_of(ts@.take(n as int)),
{
    let mut out = String::new();
    for i in 0..n
        invariant
            n <= ts@.len(),
            out@ == spoken_of(ts@.take(i as int)),
    {
        proof {
            let t = ts@.take(i as int + 1);
            assert(t.drop_last() =~= ts@.take(i as int));
            assert(t.last() == ts@[i as int]);
        }
        let s = crate::tokenize::spoken_form(&ts[i]);
        out = concat(out.as_str(), s.as_str());
    }
    out
}

fn is_never_join(term: &str) -> (r: bool)
    ensures
        r == never_join(term@),
{
    same(term, "それは") || same(term, "それが") || same(term, "これは") || same(term, "ここに")
        || same(term, "ものを") || same(term, "今日は") || same(term, "たらしい")
}

/// Whether a step records a morpheme spelled `surface` filed under the
/// identity `id` — headword, reading and the rung that settled it — with the
/// ladder's candidate lines.
pub open spec fn records_identity(s: Step, surface: Seq<char>, id: (Seq<char>, Seq<char>, Rung), lines: Seq<Seq<char>>) -> bool {
    s matches Step::Identity { surface: sf, headword: h, reading: rd, rule, candidates }
        && sf@ == surface && h@ == id.0 && rd@ == id.1 && rule@ == id.2.text() && candidates.deep_view() == lines
}

/// A run that named no word at all.
fn no_signal(trace: &mut Trace, parts: Vec<String>, reason: &'static str)
    ensures
        final(trace).is_on() == old(trace).is_on(),
        grew_by_one(*old(trace), *final(trace)),
        old(trace).is_on() ==> final(trace).recorded().last() == (Step::Join { parts: parts, verdict: Verdict::NoSignal { reason: reason } }),
{
    let ghost want = Step::Join { parts: parts, verdict: Verdict::NoSignal { reason: reason } };
    trace.push(move || -> (s: Step)
        ensures
            s == want,
        { Step::Join { parts, verdict: Verdict::NoSignal { reason } } });
}

/// A run that named a word and was turned down by a later rule.
fn refused(trace: &mut Trace, parts: Vec<String>, term: String, reason: String)
    ensures
        final(trace).is_on() == old(trace).is_on(),
        grew_by_one(*old(trace), *final(trace)),
        old(trace).is_on() ==> final(trace).recorded().last() == (Step::Join { parts: parts, verdict: Verdict::Refused { term: term, reason: reason } }),
{
    let ghost want = Step::Join { parts: parts, verdict: Verdict::Refused { term: term, reason: reason } };
    trace.push(move || -> (s: Step)
        ensures
            s == want,
        { Step::Join { parts, verdict: Verdict::Refused { term, reason } } });
}

impl TokenRules {
    pub fn reading_join_admitted(&self, run: &[Token], content: bool) -> (r: bool)
        requires
            run@.len() >= 1,
        ensures
            r == self.reading_admitted(run@, content),
    {
        let n = run.len();
        let mut verbs = true;
        let mut kana_heads = true;
        let mut joinable = true;
        let mut kanji_head = false;
        for i in 0..n
            invariant
                n == run@.len(),
                verbs == forall|k: int| 0 <= k < i ==> (#[trigger] run@[k]).pos@ == "動詞"@,
                kana_heads == forall|k: int| 0 <= k < i && k < n - 1 ==> all_kana((#[trigger] run@[k]).surface@),
                joinable == forall|k: int| 0 <= k < i ==> content_pos((#[trigger] run@[k]).pos@) || run@[k].pos@ == "接尾辞"@,
                kanji_head == exists|k: int, j: int| 0 <= k < i && k < n - 1 && 0 <= j < run@[k].surface@.len()
                    && crate::text::kanji::kanji_char(#[trigger] run@[k].surface@[j]),
        {
            let t = &run[i];
            if !same(t.pos.as_str(), "動詞") {
                verbs = false;
            }
            if !(crate::tokenize::is_content_word(t.pos.as_str()) || same(t.pos.as_str(), "接尾辞")) {
                joinable = false;
            }
            if i + 1 < n {
                if !is_all_kana(t.surface.as_str()) {
                    kana_heads = false;
                }
                if crate::text::kanji::any_kanji(t.surface.as_str()) {
                    kanji_head = true;
                }
            }
        }
        (content && verbs && kana_heads) || (joinable && kanji_head)
    }

    /// One candidate run, joined or refused.
    ///
    /// Joined on the spelling (the heads as written, then the last part's base
    /// form, spell a listed headword, every part a content word), on the whole
    /// surface as an expression (no part inflected, and not starting on the
    /// tail of the previous word's conjugation), or on the reading where that
    /// is admitted and names exactly one headword. Never across a proper noun
    /// or an empty part; never under three characters unless spelled in
    /// kanji; never a listed phrase; and the joined identity has to be one the
    /// master lists. The token takes the master's own spelling and reading.
    pub fn join_run(&self, run: &[Token], before: Option<&Token>, trace: &mut Trace) -> (r: Option<Token>)
        requires
            run@.len() >= 2,
        ensures
            final(trace).is_on() == old(trace).is_on(),
            grew_by_one(*old(trace), *final(trace)),
            old(trace).is_on() ==> records_join(final(trace).recorded().last(), surface_list(run@),
                self.join_spec(run@, match before { Some(b) => Some(*b), None => None })),
            r matches Some(t) ==> self.join_spec(run@, match before { Some(b) => Some(*b), None => None }) == Some(tv(t)),
            r is None ==> self.join_spec(run@, match before { Some(b) => Some(*b), None => None }) is None,
    {
        let ghost b = match before { Some(b) => Some(*b), None => None::<Token> };
        let n = run.len();
        let mut blocked = false;
        let mut content = true;
        let mut uninflected = true;
        for i in 0..n
            invariant
                n == run@.len(),
                blocked == exists|k: int| 0 <= k < i && ((#[trigger] run@[k]).surface@.len() == 0 || run@[k].proper_noun),
                content == forall|k: int| 0 <= k < i ==> content_pos((#[trigger] run@[k]).pos@),
                uninflected == forall|k: int| 0 <= k < i ==> !(#[trigger] run@[k]).inflected,
        {
            if run[i].surface.as_str().is_empty() || run[i].proper_noun {
                blocked = true;
            }
            if !crate::tokenize::is_content_word(run[i].pos.as_str()) {
                content = false;
            }
            if run[i].inflected {
                uninflected = false;
            }
        }
        if blocked {
            no_signal(trace, parts_of(run), "Blocked from merging: contains a proper noun");
            return None;
        }
        let last = &run[n - 1];
        proof { assert(run@.take(n as int) =~= run@); }
        let surfaces = surfaces_concat(run, n);
        let head_surfaces = surfaces_concat(run, n - 1);
        let written = concat(head_surfaces.as_str(), last.base_form.as_str());
        let mid = match before {
            Some(p) => crate::tokenize::conjugation_continues(p, &run[0]),
            None => false,
        };
        let ghost bv = match before { Some(p) => Some(*p), None => None::<Token> };
        let chosen: Option<(String, bool, &'static str)> = if content && self.lexicon.contains(written.as_str()) {
            Some((written, true, "Spelling match: parts as written form a listed headword"))
        } else if uninflected && !mid && self.lexicon.contains(surfaces.as_str()) {
            Some((surfaces.clone(), true, "Expression match: surfaces form a listed headword"))
        } else if self.reading_join_admitted(run, content) {
            let head_read = spoken_concat(run, n - 1);
            let tail_read = to_hiragana(last.reading.as_str());
            let read = concat(head_read.as_str(), tail_read.as_str());
            match self.by_reading.get(read.as_str()) {
                Some(g) => if g.len() == 1 {
                    Some((g[0].clone(), false, "Phonetic match: combined component readings form a listed headword"))
                } else {
                    no_signal(trace, parts_of(run), "Ambiguous phonetic match: reading maps to several headwords");
                    return None;
                },
                None => None,
            }
        } else {
            None
        };
        assert(chosen matches Some(c) ==> self.join_choice(run@, bv) == Some((c.0@, c.1)));
        assert(chosen is None ==> self.join_choice(run@, bv) is None);
        let (term, spelled, signal) = match chosen {
            Some(c) => c,
            None => {
                if uninflected && !mid || !self.lexicon.contains(surfaces.as_str()) {
                    no_signal(trace, parts_of(run), "No match: parts form no listed headword by spelling or by reading");
                } else {
                    let blocked_by = if !uninflected {
                        "Invalid expression: contains a bound stem rather than a full word"
                    } else {
                        "Invalid expression: run begins on the previous word's inflection"
                    };
                    refused(trace, parts_of(run), surfaces.clone(), blocked_by.to_owned());
                }
                return None;
            },
        };
        let unambiguous = spelled && crate::text::kanji::all_kanji(term.as_str());
        if crate::strings::char_len(term.as_str()) < 3 && !unambiguous {
            refused(trace, parts_of(run), term, "Below length floor: under 3 characters and not written in kanji".to_owned());
            return None;
        }
        if is_never_join(term.as_str()) {
            refused(trace, parts_of(run), term, "Blocked from merging: master dictionary lists this string as a phrase".to_owned());
            return None;
        }
        let reading = match self.term_reading.get(term.as_str()) {
            Some(r) => r.clone(),
            None => last.reading.clone(),
        };
        if self.readings_loaded && !self.lists(term.as_str(), reading.as_str()) {
            let reason = concat(concat(concat("Rejected: master dictionary does not list ", term.as_str()).as_str(), " read ").as_str(), reading.as_str());
            refused(trace, parts_of(run), term, reason);
            return None;
        }
        if trace.is_recording() {
            let parts = parts_of(run);
            let t = term.clone();
            let rd = reading.clone();
            let ghost want = Step::Join { parts: parts, verdict: Verdict::Joined { term: t, reading: rd, signal: signal } };
            trace.push(move || -> (s: Step)
                ensures
                    s == want,
                { Step::Join { parts, verdict: Verdict::Joined { term: t, reading: rd, signal } } });
        }
        Some(Token {
            surface: surfaces,
            reading,
            base_form: term,
            pos: last.pos.clone(),
            proper_noun: false,
            subsidiary: false,
            inflected: false,
        })
    }
}

} // verus!

verus! {

impl TokenRules {
    /// The stream from `i` on, recomposed: at each position the longest run of
    /// up to three tokens that joins, else the token as it was.
    pub open spec fn recomposed(&self, ts: Seq<Token>, i: int) -> Seq<TokenView>
        decreases ts.len() - i,
    {
        if i < 0 || i >= ts.len() {
            Seq::empty()
        } else {
            let before = if i > 0 { Some(ts[i - 1]) } else { None };
            if i + 3 <= ts.len() && self.join_spec(ts.subrange(i, i + 3), before) is Some {
                seq![self.join_spec(ts.subrange(i, i + 3), before)->0] + self.recomposed(ts, i + 3)
            } else if i + 2 <= ts.len() && self.join_spec(ts.subrange(i, i + 2), before) is Some {
                seq![self.join_spec(ts.subrange(i, i + 2), before)->0] + self.recomposed(ts, i + 2)
            } else {
                seq![tv(ts[i])] + self.recomposed(ts, i + 1)
            }
        }
    }

    /// The token before position `i`, if any.
    pub open spec fn before_at(ts: Seq<Token>, i: int) -> Option<Token> {
        if i > 0 { Some(ts[i - 1]) } else { None }
    }

    /// What the run of three at `i` joins into, where three tokens remain.
    pub open spec fn join3(&self, ts: Seq<Token>, i: int) -> Option<TokenView> {
        if i + 3 <= ts.len() { self.join_spec(ts.subrange(i, i + 3), Self::before_at(ts, i)) } else { None }
    }

    /// What the run of two at `i` joins into, where two tokens remain.
    pub open spec fn join2(&self, ts: Seq<Token>, i: int) -> Option<TokenView> {
        if i + 2 <= ts.len() { self.join_spec(ts.subrange(i, i + 2), Self::before_at(ts, i)) } else { None }
    }

    /// The runs offered at `i`: the three, where three remain, and — where
    /// that did not join — the two, where two remain.
    pub open spec fn offered_at(&self, ts: Seq<Token>, i: int) -> Seq<(Seq<Seq<char>>, Option<TokenView>)> {
        let o3 = if i + 3 <= ts.len() { seq![(surface_list(ts.subrange(i, i + 3)), self.join3(ts, i))] } else { Seq::empty() };
        let o2 = if i + 2 <= ts.len() { seq![(surface_list(ts.subrange(i, i + 2)), self.join2(ts, i))] } else { Seq::empty() };
        if self.join3(ts, i) is Some { o3 } else { o3 + o2 }
    }

    /// How far recomposition moves on from `i`.
    pub open spec fn step_at(&self, ts: Seq<Token>, i: int) -> int {
        if self.join3(ts, i) is Some { 3 } else if self.join2(ts, i) is Some { 2 } else { 1 }
    }

    /// The runs recomposition offers from `i` on, each with what it joined
    /// into, in order.
    pub open spec fn offers(&self, ts: Seq<Token>, i: int) -> Seq<(Seq<Seq<char>>, Option<TokenView>)>
        decreases ts.len() - i,
    {
        if i < 0 || i >= ts.len() {
            Seq::empty()
        } else {
            self.offered_at(ts, i) + self.offers(ts, i + self.step_at(ts, i))
        }
    }

    /// The runs at `i` offered to [`TokenRules::join_run`], recorded, with
    /// what they joined into and how far to move on.
    fn offer(&self, ts: &[Token], i: usize, trace: &mut Trace) -> (r: (Option<Token>, usize))
        requires
            i < ts@.len(),
        ensures
            r.1 == self.step_at(ts@, i as int),
            match r.0 {
                Some(t) => Some(tv(t)) == (if self.join3(ts@, i as int) is Some { self.join3(ts@, i as int) } else { self.join2(ts@, i as int) }),
                None => self.join3(ts@, i as int) is None && self.join2(ts@, i as int) is None,
            },
            records_joins(*old(trace), *final(trace), self.offered_at(ts@, i as int)),
    {
        let ghost bv = Self::before_at(ts@, i as int);
        let before: Option<&Token> = if i > 0 { Some(&ts[i - 1]) } else { None };
        proof { assert(trace.recorded().take(trace.recorded().len() as int) =~= trace.recorded()); }
        let ghost added: Seq<(Seq<Seq<char>>, Option<TokenView>)> = Seq::empty();
        let mut joined: Option<Token> = None;
        let mut used: usize = 1;
        if ts.len() - i >= 3 {
            let run = vstd::slice::slice_subrange(ts, i, i + 3);
            let ghost t0 = *trace;
            joined = self.join_run(run, before, trace);
            proof {
                let o = (surface_list(ts@.subrange(i as int, i as int + 3)), self.join3(ts@, i as int));
                lemma_records_joins_push(*old(trace), t0, *trace, added, o);
                added = added.push(o);
            }
            used = 3;
        }
        if joined.is_none() && ts.len() - i >= 2 {
            let run = vstd::slice::slice_subrange(ts, i, i + 2);
            let ghost t0 = *trace;
            joined = self.join_run(run, before, trace);
            proof {
                let o = (surface_list(ts@.subrange(i as int, i as int + 2)), self.join2(ts@, i as int));
                lemma_records_joins_push(*old(trace), t0, *trace, added, o);
                added = added.push(o);
            }
            used = 2;
        }
        proof {
            assert(added =~= self.offered_at(ts@, i as int));
        }
        match joined {
            Some(t) => (Some(t), used),
            None => (None, 1),
        }
    }

    /// The runs recomposition offers over a stream: none, when there is
    /// neither a lexicon nor a reading to join on.
    pub open spec fn recompose_offers(&self, ts: Seq<Token>) -> Seq<(Seq<Seq<char>>, Option<TokenView>)> {
        if self.lexicon_empty() && !self.readings_loaded() { Seq::empty() } else { self.offers(ts, 0) }
    }

    /// What recomposition makes of a stream: nothing, when there is neither a
    /// lexicon nor a reading to join on.
    pub open spec fn recompose_spec(&self, ts: Seq<Token>) -> Seq<TokenView> {
        if self.lexicon_empty() && !self.readings_loaded() {
            ts.map_values(|t: Token| tv(t))
        } else {
            self.recomposed(ts, 0)
        }
    }

    /// The compounds neither Sudachi nor the C→B→A pass can reach: both only
    /// ever *split*, so a compound Sudachi's lexicon lacks is gone before any
    /// other rule sees it. Longest match first, left to right, at most
    /// [`MAX_COMPOUND_PARTS`] parts; see [`TokenRules::join_run`].
    pub fn recompose(&self, tokens: Vec<Token>, trace: &mut Trace) -> (r: Vec<Token>)
        ensures
            r@.map_values(|t: Token| tv(t)) == self.recompose_spec(tokens@),
            final(trace).is_on() == old(trace).is_on(),
            records_joins(*old(trace), *final(trace), self.recompose_offers(tokens@)),
    {
        proof { assert(trace.recorded().take(trace.recorded().len() as int) =~= trace.recorded()); }
        if self.lexicon.is_empty() && !self.readings_loaded {
            proof { assert(self.lexicon@.is_empty() == self.lexicon_empty()); }
            return tokens;
        }
        proof { assert(self.lexicon@.is_empty() == self.lexicon_empty()); }
        let ts = tokens.as_slice();
        let mut out: Vec<Token> = Vec::new();
        let mut i: usize = 0;
        let ghost mut done: Seq<(Seq<Seq<char>>, Option<TokenView>)> = Seq::empty();
        while i < ts.len()
            invariant
                ts@ == tokens@,
                i <= ts@.len(),
                out@.map_values(|t: Token| tv(t)) + self.recomposed(ts@, i as int) == self.recomposed(ts@, 0),
                trace.is_on() == old(trace).is_on(),
                done + self.offers(ts@, i as int) == self.offers(ts@, 0),
                records_joins(*old(trace), *trace, done),
            decreases ts@.len() - i,
        {
            let ghost start = out@.map_values(|t: Token| tv(t));
            let ghost t0 = *trace;
            let (joined, used) = self.offer(ts, i, trace);
            proof {
                lemma_records_joins_append(*old(trace), t0, *trace, done, self.offered_at(ts@, i as int));
                assert(done + self.offered_at(ts@, i as int) + self.offers(ts@, i as int + used as int)
                    =~= done + self.offers(ts@, i as int));
                done = done + self.offered_at(ts@, i as int);
            }
            match joined {
                Some(t) => {
                    out.push(t);
                    proof {
                        assert(out@.map_values(|t: Token| tv(t)) =~= start.push(self.recomposed(ts@, i as int)[0]));
                    }
                    i = i + used;
                },
                None => {
                    out.push(ts[i].duplicate());
                    proof {
                        assert(out@.map_values(|t: Token| tv(t)) =~= start.push(tv(ts@[i as int])));
                    }
                    i = i + 1;
                },
            }
        }
        proof {
            assert(out@.map_values(|t: Token| tv(t)) + Seq::<TokenView>::empty() =~= out@.map_values(|t: Token| tv(t)));
            assert(done + Seq::<(Seq<Seq<char>>, Option<TokenView>)>::empty() =~= done);
        }
        out
    }
}

/// The surfaces of a stream of token views, one after another.
pub open spec fn view_surfaces(vs: Seq<TokenView>) -> Seq<char>
    decreases vs.len(),
{
    if vs.len() == 0 { Seq::empty() } else { view_surfaces(vs.drop_last()) + vs.last().0 }
}

proof fn lemma_view_surfaces_append(a: Seq<TokenView>, b: Seq<TokenView>)
    ensures
        view_surfaces(a + b) == view_surfaces(a) + view_surfaces(b),
    decreases b.len(),
{
    if b.len() == 0 {
        assert(a + b =~= a);
        assert(view_surfaces(a) + view_surfaces(b) =~= view_surfaces(a));
    } else {
        lemma_view_surfaces_append(a, b.drop_last());
        assert((a + b).drop_last() =~= a + b.drop_last());
        assert(view_surfaces(a) + view_surfaces(b.drop_last()) + b.last().0
            =~= view_surfaces(a) + (view_surfaces(b.drop_last()) + b.last().0));
    }
}

proof fn lemma_surfaces_append(a: Seq<Token>, b: Seq<Token>)
    ensures
        surfaces_of(a + b) == surfaces_of(a) + surfaces_of(b),
    decreases b.len(),
{
    if b.len() == 0 {
        assert(a + b =~= a);
        assert(surfaces_of(a) + surfaces_of(b) =~= surfaces_of(a));
    } else {
        lemma_surfaces_append(a, b.drop_last());
        assert((a + b).drop_last() =~= a + b.drop_last());
        assert(surfaces_of(a) + surfaces_of(b.drop_last()) + b.last().surface@
            =~= surfaces_of(a) + (surfaces_of(b.drop_last()) + b.last().surface@));
    }
}

proof fn lemma_views_keep_surfaces(ts: Seq<Token>)
    ensures
        view_surfaces(ts.map_values(|t: Token| tv(t))) == surfaces_of(ts),
    decreases ts.len(),
{
    if ts.len() > 0 {
        lemma_views_keep_surfaces(ts.drop_last());
        assert(ts.map_values(|t: Token| tv(t)).drop_last() =~= ts.drop_last().map_values(|t: Token| tv(t)));
    }
}

impl TokenRules {
    proof fn lemma_recomposed_surfaces(&self, ts: Seq<Token>, i: int)
        requires
            0 <= i <= ts.len(),
        ensures
            view_surfaces(self.recomposed(ts, i)) == surfaces_of(ts.subrange(i, ts.len() as int)),
        decreases ts.len() - i,
    {
        let n = ts.len() as int;
        if i == n {
            assert(ts.subrange(i, n) =~= Seq::<Token>::empty());
        } else {
            let before = if i > 0 { Some(ts[i - 1]) } else { None };
            let k: int = if i + 3 <= n && self.join_spec(ts.subrange(i, i + 3), before) is Some {
                3
            } else if i + 2 <= n && self.join_spec(ts.subrange(i, i + 2), before) is Some {
                2
            } else {
                1
            };
            let head = self.recomposed(ts, i)[0];
            self.lemma_recomposed_surfaces(ts, i + k);
            assert(self.recomposed(ts, i) =~= seq![head] + self.recomposed(ts, i + k));
            let run = ts.subrange(i, i + k);
            if k == 1 {
                assert(run.drop_last() =~= Seq::<Token>::empty());
                assert(run.last() == ts[i]);
                assert(surfaces_of(Seq::<Token>::empty()) =~= Seq::<char>::empty());
                assert(Seq::<char>::empty() + ts[i].surface@ =~= ts[i].surface@);
                assert(surfaces_of(run) =~= ts[i].surface@);
            }
            assert(head.0 == surfaces_of(run));
            lemma_view_surfaces_append(seq![head], self.recomposed(ts, i + k));
            assert(seq![head].drop_last() =~= Seq::<TokenView>::empty());
            assert(seq![head].last() == head);
            assert(view_surfaces(Seq::<TokenView>::empty()) =~= Seq::<char>::empty());
            assert(Seq::<char>::empty() + head.0 =~= head.0);
            assert(view_surfaces(seq![head]) =~= head.0);
            lemma_surfaces_append(run, ts.subrange(i + k, n));
            assert(run + ts.subrange(i + k, n) =~= ts.subrange(i, n));
        }
    }
}

/// Recomposition regroups the tokens without altering a surface: what it
/// returns spells, token after token, exactly what it was given. That is what
/// lets a single forward cursor place every token back in the line.
pub proof fn recompose_keeps_the_text(rules: TokenRules, ts: Seq<Token>)
    ensures
        view_surfaces(rules.recompose_spec(ts)) == surfaces_of(ts),
{
    if rules.lexicon_empty() && !rules.readings_loaded() {
        lemma_views_keep_surfaces(ts);
    } else {
        rules.lemma_recomposed_surfaces(ts, 0);
        assert(ts.subrange(0, ts.len() as int) =~= ts);
    }
}

} // verus!

verus! {

/// Which rung of the identity ladder settled a token.
#[derive(Debug, Clone, Copy, PartialEq, Eq)]
pub enum Rung {
    /// A shred, not a word: kept as written.
    Onset,
    /// No master dictionary loaded: Sudachi's own form and reading.
    NoMaster,
    /// The master lists the candidate as a pair.
    Exact,
    /// The master lists the pair, but its reading is one the language moved off.
    Obsolete,
    /// The spelling is listed and the reading was re-derived from it alone.
    Respelled,
    /// A hiragana token named by its reading alone.
    ByReading,
    /// One mora of kana: too ambiguous to match, kept as written.
    SingleMora,
    /// Nothing validated: Sudachi's own form and reading, off the master scale.
    Fallback,
}

impl Rung {
    /// The explanation a trace shows for this rung.
    pub open spec fn text(self) -> Seq<char> {
        match self {
            Rung::Onset => "Impossible onset: fragment preserved as written"@,
            Rung::NoMaster => "No master dictionary loaded: using Sudachi's own form and reading"@,
            Rung::Exact => "Exact match: master dictionary lists both spelling and reading"@,
            Rung::Obsolete => "Obsolete reading replaced with the standard modern one"@,
            Rung::Respelled => "Matched by spelling: reading re-derived from the headword alone"@,
            Rung::ByReading => "Matched by reading only: hiragana token, no spelling matched"@,
            Rung::SingleMora => "Single-mora token: too ambiguous to match, kept as written"@,
            Rung::Fallback => "Not in master dictionary: fallback to Sudachi's own form and reading, off the master scale"@,
        }
    }

    pub fn as_str(self) -> (r: &'static str)
        ensures
            r@ == self.text(),
    {
        match self {
            Rung::Onset => "Impossible onset: fragment preserved as written",
            Rung::NoMaster => "No master dictionary loaded: using Sudachi's own form and reading",
            Rung::Exact => "Exact match: master dictionary lists both spelling and reading",
            Rung::Obsolete => "Obsolete reading replaced with the standard modern one",
            Rung::Respelled => "Matched by spelling: reading re-derived from the headword alone",
            Rung::ByReading => "Matched by reading only: hiragana token, no spelling matched",
            Rung::SingleMora => "Single-mora token: too ambiguous to match, kept as written",
            Rung::Fallback => "Not in master dictionary: fallback to Sudachi's own form and reading, off the master scale",
        }
    }
}

/// The candidates whose headword may be filed under by an inflected token.
pub open spec fn kept_if(c: Seq<(Seq<char>, Seq<char>)>, keep: spec_fn((Seq<char>, Seq<char>)) -> bool) -> Seq<(Seq<char>, Seq<char>)>
    decreases c.len(),
{
    if c.len() == 0 {
        Seq::empty()
    } else {
        let rest = kept_if(c.drop_last(), keep);
        if keep(c.last()) { rest.push(c.last()) } else { rest }
    }
}

/// A candidate whose spelling holds no kanji.
pub open spec fn spelled_without_kanji() -> spec_fn((Seq<char>, Seq<char>)) -> bool {
    |p: (Seq<char>, Seq<char>)| kanji_free(p.0)
}

/// Whether a spelling holds no kanji.
pub open spec fn kanji_free(s: Seq<char>) -> bool {
    forall|i: int| 0 <= i < s.len() ==> !crate::text::kanji::kanji_char(#[trigger] s[i])
}

/// Whether every character is hiragana (true of the empty string).
pub open spec fn all_hiragana_chars(s: Seq<char>) -> bool {
    forall|i: int| 0 <= i < s.len() ==> crate::text::kana::hiragana_char(#[trigger] s[i])
}

impl TokenRules {
    /// A candidate whose headword an inflected token may be filed under.
    pub open spec fn conjugates(&self) -> spec_fn((Seq<char>, Seq<char>)) -> bool {
        |p: (Seq<char>, Seq<char>)| self.conjugatable_lemma_spec(p.0)
    }

    /// The ladder's candidates, most canonical spelling first: the kana
    /// auxiliary headword for a subsidiary, Sudachi's normalized form with the
    /// lemma's reading, the normalized form with its own reading where the
    /// surface still sounds like it, the dictionary form, and the surface when
    /// it is the word itself. An inflected token keeps only headwords that
    /// conjugate; one mora of kana keeps only spellings without kanji.
    pub open spec fn ladder_candidates(&self, m: Morph, subsidiary: bool) -> Seq<(Seq<char>, Seq<char>)> {
        let lemma = m.lemma_reading@;
        let surface = m.surface@;
        let dict = m.dictionary_form@;
        let norm = m.normalized_form@;
        let c0 = if subsidiary && all_kana(dict) { seq![(dict, lemma)] } else { Seq::empty() };
        let c1 = c0.push((norm, lemma));
        let c2 = match rederive(m, norm) {
            Some(rd) => if self.lexicon_has(norm) && hiragana(m.reading_form@).is_prefix_of(hiragana(rd)) {
                c1.push((norm, rd))
            } else {
                c1
            },
            None => c1,
        };
        let c3 = c2.push((dict, lemma));
        let uninflected = surface == dict;
        let c4 = if uninflected { c3.push((surface, m.reading_form@)) } else { c3 };
        let c5 = if uninflected { c4 } else { kept_if(c4, self.conjugates()) };
        if all_kana(surface) && crate::tokenize::one_mora(hiragana(surface)) {
            kept_if(c5, spelled_without_kanji())
        } else {
            c5
        }
    }

    /// The first candidate the master lists.
    pub open spec fn first_listed(&self, c: Seq<(Seq<char>, Seq<char>)>) -> Option<(Seq<char>, Seq<char>)>
        decreases c.len(),
    {
        if c.len() == 0 {
            None
        } else if self.lists_spec(c[0].0, c[0].1) {
            Some(c[0])
        } else {
            self.first_listed(c.drop_first())
        }
    }

    /// The first listed candidate spelling whose own reading, re-derived from
    /// the spelling alone, the master lists with it.
    pub open spec fn first_respelled(&self, m: Morph, c: Seq<(Seq<char>, Seq<char>)>) -> Option<(Seq<char>, Seq<char>)>
        decreases c.len(),
    {
        if c.len() == 0 {
            None
        } else if self.lexicon_has(c[0].0) && rederive(m, c[0].0) is Some
            && self.lists_spec(c[0].0, rederive(m, c[0].0)->0) {
            Some((c[0].0, rederive(m, c[0].0)->0))
        } else {
            self.first_respelled(m, c.drop_first())
        }
    }

    /// The `(headword, reading)` the ledger keys a morpheme on, and the rung
    /// that settled it.
    /// The candidates the ladder chose between, as trace lines: none for an
    /// impossible onset or with no master loaded, where no candidate is tried.
    pub open spec fn ladder_lines(&self, m: Morph, subsidiary: bool) -> Seq<Seq<char>> {
        if crate::tokenize::impossible_onset(m.surface@) || (!self.readings_loaded() && self.lexicon_empty()) {
            Seq::empty()
        } else {
            shown(self.ladder_candidates(m, subsidiary))
        }
    }

    pub open spec fn ladder_spec(&self, m: Morph, subsidiary: bool) -> (Seq<char>, Seq<char>, Rung) {
        let surface = m.surface@;
        let lemma = m.lemma_reading@;
        if crate::tokenize::impossible_onset(surface) {
            (surface, m.reading_form@, Rung::Onset)
        } else if !self.readings_loaded() && self.lexicon_empty() {
            (m.normalized_form@, lemma, Rung::NoMaster)
        } else {
            let c = self.ladder_candidates(m, subsidiary);
            match self.first_listed(c) {
                Some((t, r)) => match self.overrule(t, r, surface, m.pos.deep_view()) {
                    Some(p) => (t, p, Rung::Obsolete),
                    None => (t, r, Rung::Exact),
                },
                None => match self.first_respelled(m, c) {
                    Some((t, rd)) => (t, rd, Rung::Respelled),
                    None => {
                        let spoken = hiragana(lemma);
                        if all_hiragana_chars(m.dictionary_form@) && !crate::tokenize::one_mora(spoken)
                            && self.named_by_reading(spoken) is Some {
                            (self.named_by_reading(spoken)->0, spoken, Rung::ByReading)
                        } else if all_kana(surface) && crate::tokenize::one_mora(hiragana(surface)) {
                            (surface, m.reading_form@, Rung::SingleMora)
                        } else {
                            (m.normalized_form@, lemma, Rung::Fallback)
                        }
                    },
                },
            }
        }
    }
}

} // verus!

verus! {

/// The candidates a predicate keeps, in order.
fn keep_conjugatable(rules: &TokenRules, c: Vec<(String, String)>) -> (r: Vec<(String, String)>)
    ensures
        r.deep_view() == kept_if(c.deep_view(), rules.conjugates()),
{
    let mut out: Vec<(String, String)> = Vec::new();
    let ghost cs = c.deep_view();
    for i in 0..c.len()
        invariant
            cs == c.deep_view(),
            out.deep_view() == kept_if(cs.take(i as int), rules.conjugates()),
    {
        let ghost pre = cs.take(i as int + 1);
        proof {
            assert(pre.drop_last() =~= cs.take(i as int));
            assert(pre.last() == cs[i as int]);
            assert(cs[i as int] == (c@[i as int].0@, c@[i as int].1@));
        }
        if rules.conjugatable_lemma(c[i].0.as_str()) {
            let ghost before = out.deep_view();
            out.push((c[i].0.clone(), c[i].1.clone()));
            proof { assert(out.deep_view() =~= before.push(cs[i as int])); }
        }
    }
    proof { assert(cs.take(cs.len() as int) =~= cs); }
    out
}

fn keep_kanji_free(c: Vec<(String, String)>) -> (r: Vec<(String, String)>)
    ensures
        r.deep_view() == kept_if(c.deep_view(), spelled_without_kanji()),
{
    let mut out: Vec<(String, String)> = Vec::new();
    let ghost cs = c.deep_view();
    for i in 0..c.len()
        invariant
            cs == c.deep_view(),
            out.deep_view() == kept_if(cs.take(i as int), spelled_without_kanji()),
    {
        let ghost pre = cs.take(i as int + 1);
        proof {
            assert(pre.drop_last() =~= cs.take(i as int));
            assert(pre.last() == cs[i as int]);
            assert(cs[i as int] == (c@[i as int].0@, c@[i as int].1@));
        }
        if !crate::text::kanji::any_kanji(c[i].0.as_str()) {
            let ghost before = out.deep_view();
            out.push((c[i].0.clone(), c[i].1.clone()));
            proof { assert(out.deep_view() =~= before.push(cs[i as int])); }
        }
    }
    proof { assert(cs.take(cs.len() as int) =~= cs); }
    out
}

fn all_hiragana(s: &str) -> (r: bool)
    ensures
        r == all_hiragana_chars(s@),
{
    let mut all = true;
    for c in it: s.chars()
        invariant
            it.seq() == s@,
            all == forall|i: int| 0 <= i < it.index() ==> crate::text::kana::hiragana_char(#[trigger] s@[i]),
    {
        if !crate::text::kana::is_hiragana(c) {
            all = false;
        }
    }
    all
}

/// One candidate as a trace line: `headword / reading`, the reading in hiragana.
pub open spec fn candidate_line(p: (Seq<char>, Seq<char>)) -> Seq<char> {
    p.0 + " / "@ + hiragana(p.1)
}

/// The candidates' lines in order, each kept the first time it appears.
pub open spec fn shown(c: Seq<(Seq<char>, Seq<char>)>) -> Seq<Seq<char>>
    decreases c.len(),
{
    if c.len() == 0 {
        Seq::empty()
    } else {
        let prev = shown(c.drop_last());
        let line = candidate_line(c.last());
        if prev.contains(line) { prev } else { prev.push(line) }
    }
}

/// Each candidate as `headword / reading`, without repeats: the rungs are
/// distinct sources that agree far more often than not.
fn show(c: &Vec<(String, String)>) -> (r: Vec<String>)
    ensures
        r.deep_view() == shown(c.deep_view()),
{
    let mut lines: Vec<String> = Vec::new();
    for i in 0..c.len()
        invariant
            lines.deep_view() == shown(c.deep_view().take(i as int)),
    {
        proof {
            reveal_strlit(" / ");
            let pre = c.deep_view().take(i as int + 1);
            assert(pre.drop_last() =~= c.deep_view().take(i as int));
            assert(pre.last() == c.deep_view()[i as int]);
        }
        let r = to_hiragana(c[i].1.as_str());
        let line = concat(concat(c[i].0.as_str(), " / ").as_str(), r.as_str());
        proof { assert(line@ == candidate_line(c.deep_view()[i as int])); }
        if !holds(&lines, line.as_str()) {
            let ghost before = lines.deep_view();
            lines.push(line);
            proof { assert(lines.deep_view() =~= before.push(line@)); }
        }
    }
    proof { assert(c.deep_view().take(c.len() as int) =~= c.deep_view()); }
    lines
}

impl TokenRules {
    /// The ladder itself, with the rung that settled it and the candidates it
    /// was choosing between.
    pub fn identity_ladder(&self, m: &Morph, subsidiary: bool) -> (r: (String, String, Rung, Vec<String>))
        ensures
            (r.0@, r.1@, r.2) == self.ladder_spec(*m, subsidiary),
            r.3.deep_view() == self.ladder_lines(*m, subsidiary),
    {
        let surface = m.surface.as_str();
        let dict = m.dictionary_form.as_str();
        let norm = m.normalized_form.as_str();
        if crate::tokenize::has_impossible_onset(surface) {
            return (m.surface.clone(), m.reading_form.clone(), Rung::Onset, Vec::new());
        }
        if !self.readings_loaded && self.lexicon.is_empty() {
            proof { assert(self.lexicon@.is_empty() == self.lexicon_empty()); }
            return (m.normalized_form.clone(), m.lemma_reading.clone(), Rung::NoMaster, Vec::new());
        }
        proof { assert(self.lexicon@.is_empty() == self.lexicon_empty()); }
        let ghost lemma = m.lemma_reading@;
        let ghost dv = m.dictionary_form@;
        let ghost nv = m.normalized_form@;
        let mut c: Vec<(String, String)> = Vec::new();
        if subsidiary && is_all_kana(dict) {
            c.push((m.dictionary_form.clone(), m.lemma_reading.clone()));
        }
        let ghost c0 = if subsidiary && all_kana(dv) { seq![(dv, lemma)] } else { Seq::<(Seq<char>, Seq<char>)>::empty() };
        proof { assert(c.deep_view() =~= c0); }
        c.push((m.normalized_form.clone(), m.lemma_reading.clone()));
        let ghost c1 = c0.push((nv, lemma));
        proof { assert(c.deep_view() =~= c1); }
        match rederived_reading(m, norm) {
            Some(rd) => {
                let own = to_hiragana(rd.as_str());
                let heard = to_hiragana(m.reading_form.as_str());
                if self.lexicon.contains(norm) && crate::strings::starts_with(own.as_str(), heard.as_str()) {
                    let ghost rdv = rd@;
                    c.push((m.normalized_form.clone(), rd));
                    proof { assert(c.deep_view() =~= c1.push((nv, rdv))); }
                }
            },
            None => {},
        }
        let ghost c2 = match rederive(*m, nv) {
            Some(rd) => if self.lexicon_has(nv) && hiragana(m.reading_form@).is_prefix_of(hiragana(rd)) {
                c1.push((nv, rd))
            } else {
                c1
            },
            None => c1,
        };
        proof { assert(c.deep_view() =~= c2); }
        c.push((m.dictionary_form.clone(), m.lemma_reading.clone()));
        let ghost c3 = c2.push((dv, lemma));
        proof { assert(c.deep_view() =~= c3); }
        let uninflected = same(surface, dict);
        if uninflected {
            c.push((m.surface.clone(), m.reading_form.clone()));
        }
        let ghost c4 = if uninflected { c3.push((m.surface@, m.reading_form@)) } else { c3 };
        proof { assert(c.deep_view() =~= c4); }
        if !uninflected {
            c = keep_conjugatable(self, c);
        }
        let folded_surface = to_hiragana(surface);
        let mora_of_kana = is_all_kana(surface) && crate::tokenize::is_one_mora(folded_surface.as_str());
        if mora_of_kana {
            c = keep_kanji_free(c);
        }
        proof {
            assert(c.deep_view() == self.ladder_candidates(*m, subsidiary));
        }
        let ghost cs = c.deep_view();
        let lines = show(&c);

        let mut i: usize = 0;
        while i < c.len()
            invariant
                cs == c.deep_view(),
                cs == self.ladder_candidates(*m, subsidiary),
                !crate::tokenize::impossible_onset(m.surface@),
                !(!self.readings_loaded() && self.lexicon_empty()),
                surface@ == m.surface@,
                lines.deep_view() == shown(cs),
                i <= c.len(),
                self.first_listed(cs) == self.first_listed(cs.skip(i as int)),
            decreases c.len() - i,
        {
            proof {
                let rest = cs.skip(i as int);
                assert(rest.drop_first() =~= cs.skip(i as int + 1));
                assert(rest[0] == cs[i as int]);
                assert(cs[i as int] == (c@[i as int].0@, c@[i as int].1@));
            }
            if self.lists(c[i].0.as_str(), c[i].1.as_str()) {
                let term = c[i].0.clone();
                let reading = c[i].1.clone();
                let pos = m.pos.as_slice();
                assert(pos.deep_view() =~= m.pos.deep_view());
                return match self.preferred_reading(term.as_str(), reading.as_str(), surface, pos) {
                    Some(p) => (term, p, Rung::Obsolete, lines),
                    None => (term, reading, Rung::Exact, lines),
                };
            }
            i = i + 1;
        }

        let mut i: usize = 0;
        while i < c.len()
            invariant
                cs == c.deep_view(),
                cs == self.ladder_candidates(*m, subsidiary),
                !crate::tokenize::impossible_onset(m.surface@),
                !(!self.readings_loaded() && self.lexicon_empty()),
                lines.deep_view() == shown(cs),
                i <= c.len(),
                self.first_listed(cs) is None,
                self.first_respelled(*m, cs) == self.first_respelled(*m, cs.skip(i as int)),
            decreases c.len() - i,
        {
            proof {
                let rest = cs.skip(i as int);
                assert(rest.drop_first() =~= cs.skip(i as int + 1));
                assert(rest[0] == cs[i as int]);
                assert(cs[i as int] == (c@[i as int].0@, c@[i as int].1@));
            }
            if self.lexicon.contains(c[i].0.as_str()) {
                match rederived_reading(m, c[i].0.as_str()) {
                    Some(rd) => if self.lists(c[i].0.as_str(), rd.as_str()) {
                        return (c[i].0.clone(), rd, Rung::Respelled, lines);
                    },
                    None => {},
                }
            }
            i = i + 1;
        }

        if all_hiragana(dict) {
            let spoken = to_hiragana(m.lemma_reading.as_str());
            if !crate::tokenize::is_one_mora(spoken.as_str()) {
                match self.headword_for_reading(spoken.as_str()) {
                    Some(t) => return (t, spoken, Rung::ByReading, lines),
                    None => {},
                }
            }
        }
        if mora_of_kana {
            return (m.surface.clone(), m.reading_form.clone(), Rung::SingleMora, lines);
        }
        (m.normalized_form.clone(), m.lemma_reading.clone(), Rung::Fallback, lines)
    }
}

} // verus!

verus! {

/// A morpheme of the middle segmentation, with its finest split where the
/// finest mode takes it apart.
pub struct Piece {
    pub morph: Morph,
    pub finer: Option<Vec<Morph>>,
}

/// A morpheme of the coarsest segmentation, with its middle split where the
/// middle mode takes it apart, and otherwise its finest split where the
/// finest mode does.
pub struct Analysis {
    pub morph: Morph,
    pub middle: Option<Vec<Piece>>,
    pub finest: Option<Vec<Morph>>,
}

/// The part-of-speech subclass: 固有名詞, 非自立可能, …
pub open spec fn subclass(m: Morph) -> Seq<char> {
    if m.pos@.len() > 1 { m.pos@[1]@ } else { Seq::empty() }
}

pub open spec fn morph_ok(m: Morph) -> bool {
    m.pos@.len() > 0
}

pub open spec fn morphs_ok(ms: Seq<Morph>) -> bool {
    forall|i: int| 0 <= i < ms.len() ==> morph_ok(#[trigger] ms[i])
}

pub open spec fn piece_ok(p: Piece) -> bool {
    morph_ok(p.morph) && (p.finer matches Some(f) ==> morphs_ok(f@))
}

/// Every morpheme Sudachi gave carries a part of speech.
pub open spec fn analysis_ok(a: Analysis) -> bool {
    &&& morph_ok(a.morph)
    &&& (a.middle matches Some(ps) ==> forall|i: int| 0 <= i < ps@.len() ==> piece_ok(#[trigger] ps@[i]))
    &&& (a.finest matches Some(f) ==> morphs_ok(f@))
}

pub open spec fn analyses_ok(xs: Seq<Analysis>) -> bool {
    forall|i: int| 0 <= i < xs.len() ==> analysis_ok(#[trigger] xs[i])
}

impl TokenRules {
    /// The token a morpheme becomes: its surface, the identity the ladder
    /// files it under, its top-level part of speech, and its flags.
    pub open spec fn token_of(&self, m: Morph) -> TokenView {
        let sub = subclass(m);
        let subsidiary = sub == "非自立可能"@;
        let id = self.ladder_spec(m, subsidiary);
        (m.surface@, id.0, id.1, m.pos@[0]@, sub == "固有名詞"@, subsidiary, m.surface@ != m.dictionary_form@)
    }

    /// The `(headword, reading)` the ledger will key this morpheme on, with the
    /// ladder recorded.
    pub fn resolve_identity(&self, m: &Morph, subsidiary: bool, trace: &mut Trace) -> (r: (String, String))
        ensures
            (r.0@, r.1@) == (self.ladder_spec(*m, subsidiary).0, self.ladder_spec(*m, subsidiary).1),
            final(trace).is_on() == old(trace).is_on(),
            grew_by_one(*old(trace), *final(trace)),
            old(trace).is_on() ==> records_identity(final(trace).recorded().last(), m.surface@,
                self.ladder_spec(*m, subsidiary), self.ladder_lines(*m, subsidiary)),
    {
        let (headword, reading, rung, candidates) = self.identity_ladder(m, subsidiary);
        if trace.is_recording() {
            let surface = m.surface.clone();
            let h = headword.clone();
            let rd = reading.clone();
            let rule = rung.as_str();
            let ghost want = Step::Identity { surface: surface, headword: h, reading: rd, rule: rule, candidates: candidates };
            trace.push(move || -> (s: Step)
                ensures
                    s == want,
                { Step::Identity { surface, headword: h, reading: rd, rule, candidates } });
        }
        (headword, reading)
    }

    pub fn to_token(&self, m: &Morph, trace: &mut Trace) -> (r: Token)
        requires
            morph_ok(*m),
        ensures
            tv(r) == self.token_of(*m),
            final(trace).is_on() == old(trace).is_on(),
            grew_by_one(*old(trace), *final(trace)),
            old(trace).is_on() ==> records_identity(final(trace).recorded().last(), m.surface@,
                self.ladder_spec(*m, subclass(*m) == "非自立可能"@), self.ladder_lines(*m, subclass(*m) == "非自立可能"@)),
    {
        let sub: &str = if m.pos.len() > 1 { m.pos[1].as_str() } else { "" };
        let ghost subv = subclass(*m);
        proof {
            reveal_strlit("");
            assert(sub@ == subv);
        }
        let subsidiary = same(sub, "非自立可能");
        let (base_form, reading) = self.resolve_identity(m, subsidiary, trace);
        Token {
            surface: m.surface.clone(),
            base_form,
            reading,
            pos: m.pos[0].clone(),
            proper_noun: same(sub, "固有名詞"),
            subsidiary,
            inflected: !same(m.surface.as_str(), m.dictionary_form.as_str()),
        }
    }

    /// The morphemes a piece of the middle segmentation contributes.
    pub open spec fn piece_chosen(&self, p: Piece) -> Seq<Morph> {
        if self.keeps_whole_spec(p.morph) {
            seq![p.morph]
        } else {
            match p.finer {
                Some(f) => f@,
                None => seq![p.morph],
            }
        }
    }

    pub open spec fn pieces_chosen(&self, ps: Seq<Piece>) -> Seq<Morph>
        decreases ps.len(),
    {
        if ps.len() == 0 { Seq::empty() } else { self.pieces_chosen(ps.drop_last()) + self.piece_chosen(ps.last()) }
    }

    /// The morphemes one morpheme of the coarsest segmentation contributes:
    /// itself when it is a word, else its middle split piece by piece, else
    /// its finest split, else itself.
    pub open spec fn chosen(&self, a: Analysis) -> Seq<Morph> {
        if self.keeps_whole_spec(a.morph) {
            seq![a.morph]
        } else {
            match a.middle {
                Some(ps) => self.pieces_chosen(ps@),
                None => match a.finest {
                    Some(f) => f@,
                    None => seq![a.morph],
                },
            }
        }
    }

    pub open spec fn all_chosen(&self, xs: Seq<Analysis>) -> Seq<Morph>
        decreases xs.len(),
    {
        if xs.len() == 0 { Seq::empty() } else { self.all_chosen(xs.drop_last()) + self.chosen(xs.last()) }
    }

    /// The tokens of a line before stammers and recomposition: every
    /// morpheme as it came when nothing can say whether a compound is a word,
    /// else the wordhood-gated segmentation.
    pub open spec fn segment_spec(&self, xs: Seq<Analysis>) -> Seq<TokenView> {
        if self.mined_empty() && self.lexicon_empty() {
            xs.map_values(|a: Analysis| self.token_of(a.morph))
        } else {
            self.all_chosen(xs).map_values(|m: Morph| self.token_of(m))
        }
    }
}

} // verus!

verus! {

/// The surfaces a split produced, in order; none where it produced nothing.
pub open spec fn split_names(parts: Option<&Vec<Morph>>) -> Seq<Seq<char>> {
    match parts {
        Some(ps) => ps@.map_values(|x: Morph| x.surface@),
        None => Seq::empty(),
    }
}

/// Whether a step records the split of the morpheme spelled `surface` in
/// `mode` into parts spelled `names`.
pub open spec fn records_split(s: Step, surface: Seq<char>, mode: Seq<char>, names: Seq<Seq<char>>) -> bool {
    s matches Step::Split { surface: sf, mode: md, parts: ps } && sf@ == surface && md@ == mode && ps.deep_view() == names
}

fn surfaces_of_morphs(ms: &Vec<Morph>) -> (r: Vec<String>)
    ensures
        r.deep_view() == ms@.map_values(|x: Morph| x.surface@),
{
    let mut names: Vec<String> = Vec::new();
    for i in 0..ms.len()
        invariant
            names.deep_view() == ms@.take(i as int).map_values(|x: Morph| x.surface@),
    {
        names.push(ms[i].surface.clone());
        proof {
            assert(ms@.take(i as int + 1).map_values(|x: Morph| x.surface@)
                =~= ms@.take(i as int).map_values(|x: Morph| x.surface@).push(ms@[i as int].surface@));
            assert(names.deep_view() =~= ms@.take(i as int).map_values(|x: Morph| x.surface@).push(ms@[i as int].surface@));
        }
    }
    proof { assert(ms@.take(ms@.len() as int) =~= ms@); }
    names
}

fn record_split(m: &Morph, mode: &'static str, parts: Option<&Vec<Morph>>, trace: &mut Trace)
    ensures
        final(trace).is_on() == old(trace).is_on(),
        grew_by_one(*old(trace), *final(trace)),
        old(trace).is_on() ==> records_split(final(trace).recorded().last(), m.surface@, mode@, split_names(parts)),
{
    if !trace.is_recording() {
        return;
    }
    let surface = m.surface.clone();
    let names: Vec<String> = match parts {
        Some(ps) => surfaces_of_morphs(ps),
        None => Vec::new(),
    };
    proof {
        match parts {
            Some(ps) => {},
            None => { assert(names.deep_view() =~= split_names(parts)); },
        }
    }
    let ghost want = Step::Split { surface: surface, mode: mode, parts: names };
    trace.push(move || -> (s: Step)
        ensures
            s == want,
        { Step::Split { surface, mode, parts: names } });
}

fn record_split_pieces(m: &Morph, parts: &Vec<Piece>, trace: &mut Trace)
    ensures
        final(trace).is_on() == old(trace).is_on(),
        grew_by_one(*old(trace), *final(trace)),
        old(trace).is_on() ==> records_split(final(trace).recorded().last(), m.surface@, "B"@,
            parts@.map_values(|p: Piece| p.morph.surface@)),
{
    if !trace.is_recording() {
        return;
    }
    let surface = m.surface.clone();
    let mut names: Vec<String> = Vec::new();
    for i in 0..parts.len()
        invariant
            names.deep_view() == parts@.take(i as int).map_values(|p: Piece| p.morph.surface@),
    {
        names.push(parts[i].morph.surface.clone());
        proof {
            assert(parts@.take(i as int + 1).map_values(|p: Piece| p.morph.surface@)
                =~= parts@.take(i as int).map_values(|p: Piece| p.morph.surface@).push(parts@[i as int].morph.surface@));
            assert(names.deep_view() =~= parts@.take(i as int).map_values(|p: Piece| p.morph.surface@).push(parts@[i as int].morph.surface@));
        }
    }
    proof { assert(parts@.take(parts@.len() as int) =~= parts@); }
    let mode: &'static str = "B";
    proof { reveal_strlit("B"); }
    let ghost want = Step::Split { surface: surface, mode: mode, parts: names };
    trace.push(move || -> (s: Step)
        ensures
            s == want,
        { Step::Split { surface, mode, parts: names } });
}

impl TokenRules {
    fn push_tokens(&self, ms: &Vec<Morph>, out: &mut Vec<Token>, trace: &mut Trace)
        requires
            morphs_ok(ms@),
        ensures
            final(out)@.map_values(|t: Token| tv(t)) == old(out)@.map_values(|t: Token| tv(t)) + ms@.map_values(|m: Morph| self.token_of(m)),
            final(trace).is_on() == old(trace).is_on(),
            grows_at_least(*old(trace), *final(trace), final(out).len() - old(out).len()),
    {
        let ghost start = out@.map_values(|t: Token| tv(t));
        let ghost n0 = out.len() as int;
        proof { grows_none(*trace); }
        for i in 0..ms.len()
            invariant
                morphs_ok(ms@),
                out@.map_values(|t: Token| tv(t)) == start + ms@.take(i as int).map_values(|m: Morph| self.token_of(m)),
                trace.is_on() == old(trace).is_on(),
                n0 == old(out).len(),
                grows_at_least(*old(trace), *trace, out.len() - n0),
        {
            let ghost t0 = *trace;
            let t = self.to_token(&ms[i], trace);
            proof {
                grew_grows(t0, *trace, 1);
                grows_trans(*old(trace), t0, *trace, out.len() - n0, 1);
            }
            let ghost before = out@.map_values(|t: Token| tv(t));
            out.push(t);
            proof {
                assert(ms@.take(i as int + 1).map_values(|m: Morph| self.token_of(m))
                    =~= ms@.take(i as int).map_values(|m: Morph| self.token_of(m)).push(self.token_of(ms@[i as int])));
                assert(out@.map_values(|t: Token| tv(t)) =~= before.push(tv(t)));
            }
        }
        proof { assert(ms@.take(ms@.len() as int) =~= ms@); }
    }

    fn push_piece(&self, p: &Piece, out: &mut Vec<Token>, trace: &mut Trace)
        requires
            piece_ok(*p),
        ensures
            final(out)@.map_values(|t: Token| tv(t)) == old(out)@.map_values(|t: Token| tv(t)) + self.piece_chosen(*p).map_values(|m: Morph| self.token_of(m)),
            final(trace).is_on() == old(trace).is_on(),
            grows_at_least(*old(trace), *final(trace), final(out).len() - old(out).len()),
    {
        let ghost start = out@.map_values(|t: Token| tv(t));
        let ghost t0 = *trace;
        let whole = self.keeps_whole(&p.morph, trace);
        let ghost t1 = *trace;
        proof { grew_grows(t0, t1, 0); }
        if whole {
            let t = self.to_token(&p.morph, trace);
            proof {
                grew_grows(t1, *trace, 1);
                grows_trans(t0, t1, *trace, 0, 1);
            }
            out.push(t);
            proof {
                assert(out@.map_values(|t: Token| tv(t)) =~= start + seq![p.morph].map_values(|m: Morph| self.token_of(m)));
            }
            return;
        }
        match &p.finer {
            Some(parts) => {
                record_split(&p.morph, "A", Some(parts), trace);
                let ghost t2 = *trace;
                proof { grew_grows(t1, t2, 0); grows_trans(t0, t1, t2, 0, 0); }
                self.push_tokens(parts, out, trace);
                proof { grows_trans(t0, t2, *trace, 0, out.len() - old(out).len()); }
            },
            None => {
                record_split(&p.morph, "none", None, trace);
                let ghost t2 = *trace;
                proof { grew_grows(t1, t2, 0); grows_trans(t0, t1, t2, 0, 0); }
                let t = self.to_token(&p.morph, trace);
                proof { grew_grows(t2, *trace, 1); grows_trans(t0, t2, *trace, 0, 1); }
                out.push(t);
                proof {
                    assert(out@.map_values(|t: Token| tv(t)) =~= start + seq![p.morph].map_values(|m: Morph| self.token_of(m)));
                }
            },
        }
    }

    fn push_analysis(&self, a: &Analysis, out: &mut Vec<Token>, trace: &mut Trace)
        requires
            analysis_ok(*a),
        ensures
            final(out)@.map_values(|t: Token| tv(t)) == old(out)@.map_values(|t: Token| tv(t)) + self.chosen(*a).map_values(|m: Morph| self.token_of(m)),
            final(trace).is_on() == old(trace).is_on(),
            grows_at_least(*old(trace), *final(trace), final(out).len() - old(out).len()),
    {
        let ghost start = out@.map_values(|t: Token| tv(t));
        let ghost t0 = *trace;
        let whole = self.keeps_whole(&a.morph, trace);
        let ghost t1 = *trace;
        proof { grew_grows(t0, t1, 0); }
        if whole {
            let t = self.to_token(&a.morph, trace);
            proof {
                grew_grows(t1, *trace, 1);
                grows_trans(t0, t1, *trace, 0, 1);
            }
            out.push(t);
            proof {
                assert(out@.map_values(|t: Token| tv(t)) =~= start + seq![a.morph].map_values(|m: Morph| self.token_of(m)));
            }
            return;
        }
        match &a.middle {
            Some(pieces) => {
                record_split_pieces(&a.morph, pieces, trace);
                proof { grew_grows(t1, *trace, 0); grows_trans(t0, t1, *trace, 0, 0); }
                for i in 0..pieces.len()
                    invariant
                        a.middle == Some(*pieces),
                        forall|k: int| 0 <= k < pieces@.len() ==> piece_ok(#[trigger] pieces@[k]),
                        out@.map_values(|t: Token| tv(t)) == start + self.pieces_chosen(pieces@.take(i as int)).map_values(|m: Morph| self.token_of(m)),
                        trace.is_on() == old(trace).is_on(),
                        grows_at_least(t0, *trace, out.len() - old(out).len()),
                        t0 == *old(trace),
                {
                    let ghost before = out@.map_values(|t: Token| tv(t));
                    let ghost tb = *trace;
                    let ghost lb = out.len() as int;
                    self.push_piece(&pieces[i], out, trace);
                    proof { grows_trans(t0, tb, *trace, lb - old(out).len(), out.len() - lb); }
                    proof {
                        let pre = pieces@.take(i as int + 1);
                        assert(pre.drop_last() =~= pieces@.take(i as int));
                        assert(pre.last() == pieces@[i as int]);
                        let f = |m: Morph| self.token_of(m);
                        assert((self.pieces_chosen(pieces@.take(i as int)) + self.piece_chosen(pieces@[i as int])).map_values(f)
                            =~= self.pieces_chosen(pieces@.take(i as int)).map_values(f) + self.piece_chosen(pieces@[i as int]).map_values(f));
                        assert(out@.map_values(|t: Token| tv(t)) =~= start + self.pieces_chosen(pre).map_values(|m: Morph| self.token_of(m)));
                    }
                }
                proof { assert(pieces@.take(pieces@.len() as int) =~= pieces@); }
            },
            None => match &a.finest {
                Some(parts) => {
                    record_split(&a.morph, "A", Some(parts), trace);
                    let ghost t2 = *trace;
                    proof { grew_grows(t1, t2, 0); grows_trans(t0, t1, t2, 0, 0); }
                    self.push_tokens(parts, out, trace);
                    proof { grows_trans(t0, t2, *trace, 0, out.len() - old(out).len()); }
                },
                None => {
                    record_split(&a.morph, "none", None, trace);
                    let ghost t2 = *trace;
                    proof { grew_grows(t1, t2, 0); grows_trans(t0, t1, t2, 0, 0); }
                    let t = self.to_token(&a.morph, trace);
                    proof { grew_grows(t2, *trace, 1); grows_trans(t0, t2, *trace, 0, 1); }
                    out.push(t);
                    proof {
                        assert(out@.map_values(|t: Token| tv(t)) =~= start + seq![a.morph].map_values(|m: Morph| self.token_of(m)));
                    }
                },
            },
        }
    }
}

} // verus!

verus! {

impl TokenRules {
    /// Whether nothing can say a compound is a word: no mined deck and no
    /// master lexicon. Sudachi's middle mode is then the analysis to take.
    pub fn wordhood_gate_empty(&self) -> (r: bool)
        ensures
            r == (self.mined_empty() && self.lexicon_empty()),
    {
        self.mined.is_empty() && self.lexicon.is_empty()
    }

    /// The tokens of one analysed line: the wordhood-gated C→B→A segmentation
    /// (or every morpheme as it came, with no gate to ask), each filed under
    /// its identity, stammer fragments dropped, then compounds recomposed.
    pub fn run(&self, analyses: &Vec<Analysis>, trace: &mut Trace) -> (r: Vec<Token>)
        requires
            analyses_ok(analyses@),
        ensures
            exists|ts: Seq<Token>|
                ts.map_values(|t: Token| tv(t)) == self.segment_spec(analyses@)
                && r@.map_values(|t: Token| tv(t)) == self.recompose_spec(#[trigger] crate::tokenize::unstuttered(ts, 0)),
            final(trace).is_on() == old(trace).is_on(),
            exists|ts: Seq<Token>, mid: Trace, mid2: Trace|
                ts.map_values(|t: Token| tv(t)) == self.segment_spec(analyses@)
                && grows_at_least(*old(trace), mid, ts.len() as int)
                && #[trigger] crate::tokenize::records_stutters(mid, mid2, crate::tokenize::stutter_pairs(ts, 0))
                && records_joins(mid2, *final(trace), self.recompose_offers(crate::tokenize::unstuttered(ts, 0))),
    {
        let mut tokens: Vec<Token> = Vec::new();
        proof { grows_none(*trace); }
        if self.wordhood_gate_empty() {
            for i in 0..analyses.len()
                invariant
                    analyses_ok(analyses@),
                    tokens@.map_values(|t: Token| tv(t)) == analyses@.take(i as int).map_values(|a: Analysis| self.token_of(a.morph)),
                    trace.is_on() == old(trace).is_on(),
                    grows_at_least(*old(trace), *trace, tokens.len() as int),
            {
                assert(analysis_ok(analyses@[i as int]));
                let ghost tb = *trace;
                let t = self.to_token(&analyses[i].morph, trace);
                proof { grew_grows(tb, *trace, 1); grows_trans(*old(trace), tb, *trace, tokens.len() as int, 1); }
                let ghost before = tokens@.map_values(|t: Token| tv(t));
                tokens.push(t);
                proof {
                    assert(tokens@.map_values(|t: Token| tv(t)) =~= before.push(tv(t)));
                    assert(analyses@.take(i as int + 1).map_values(|a: Analysis| self.token_of(a.morph))
                        =~= analyses@.take(i as int).map_values(|a: Analysis| self.token_of(a.morph)).push(self.token_of(analyses@[i as int].morph)));
                }
            }
            proof { assert(analyses@.take(analyses@.len() as int) =~= analyses@); }
        } else {
            for i in 0..analyses.len()
                invariant
                    analyses_ok(analyses@),
                    tokens@.map_values(|t: Token| tv(t)) == self.all_chosen(analyses@.take(i as int)).map_values(|m: Morph| self.token_of(m)),
                    trace.is_on() == old(trace).is_on(),
                    grows_at_least(*old(trace), *trace, tokens.len() as int),
            {
                assert(analysis_ok(analyses@[i as int]));
                let ghost tb = *trace;
                let ghost lb = tokens.len() as int;
                self.push_analysis(&analyses[i], &mut tokens, trace);
                proof { grows_trans(*old(trace), tb, *trace, lb, tokens.len() - lb); }
                proof {
                    let pre = analyses@.take(i as int + 1);
                    assert(pre.drop_last() =~= analyses@.take(i as int));
                    assert(pre.last() == analyses@[i as int]);
                    let f = |m: Morph| self.token_of(m);
                    assert((self.all_chosen(analyses@.take(i as int)) + self.chosen(analyses@[i as int])).map_values(f)
                        =~= self.all_chosen(analyses@.take(i as int)).map_values(f) + self.chosen(analyses@[i as int]).map_values(f));
                }
            }
            proof { assert(analyses@.take(analyses@.len() as int) =~= analyses@); }
        }
        let ghost ts = tokens@;
        let ghost mid = *trace;
        let kept = crate::tokenize::drop_stutters(tokens, trace);
        let ghost mid2 = *trace;
        let r = self.recompose(kept, trace);
        proof {
            assert(ts.map_values(|t: Token| tv(t)) == self.segment_spec(analyses@));
            assert(ts.len() == ts.map_values(|t: Token| tv(t)).len());
            assert(crate::tokenize::records_stutters(mid, mid2, crate::tokenize::stutter_pairs(ts, 0)));
        }
        r
    }
}

} // verus!

verus! {

/// The surfaces of some morphemes, one after another.
pub open spec fn morph_surfaces(ms: Seq<Morph>) -> Seq<char>
    decreases ms.len(),
{
    if ms.len() == 0 { Seq::empty() } else { morph_surfaces(ms.drop_last()) + ms.last().surface@ }
}

/// The surfaces of the middle segmentation's pieces, one after another.
pub open spec fn piece_surfaces(ps: Seq<Piece>) -> Seq<char>
    decreases ps.len(),
{
    if ps.len() == 0 { Seq::empty() } else { piece_surfaces(ps.drop_last()) + ps.last().morph.surface@ }
}

/// The line an analysis covers: its coarsest morphemes' surfaces, one after
/// another.
pub open spec fn analysed_text(xs: Seq<Analysis>) -> Seq<char>
    decreases xs.len(),
{
    if xs.len() == 0 { Seq::empty() } else { analysed_text(xs.drop_last()) + xs.last().morph.surface@ }
}

/// A piece whose finest split spells it.
pub open spec fn piece_faithful(p: Piece) -> bool {
    p.finer matches Some(f) ==> morph_surfaces(f@) == p.morph.surface@
}

/// An analysis whose every split spells what it split: Sudachi splits a
/// morpheme without altering a character.
pub open spec fn analysis_faithful(a: Analysis) -> bool {
    &&& (a.middle matches Some(ps) ==> piece_surfaces(ps@) == a.morph.surface@
        && forall|k: int| 0 <= k < ps@.len() ==> piece_faithful(#[trigger] ps@[k]))
    &&& (a.finest matches Some(f) ==> morph_surfaces(f@) == a.morph.surface@)
}

proof fn lemma_morph_surfaces_append(a: Seq<Morph>, b: Seq<Morph>)
    ensures
        morph_surfaces(a + b) == morph_surfaces(a) + morph_surfaces(b),
    decreases b.len(),
{
    if b.len() == 0 {
        assert(a + b =~= a);
        assert(morph_surfaces(a) + morph_surfaces(b) =~= morph_surfaces(a));
    } else {
        lemma_morph_surfaces_append(a, b.drop_last());
        assert((a + b).drop_last() =~= a + b.drop_last());
        assert(morph_surfaces(a) + morph_surfaces(b.drop_last()) + b.last().surface@
            =~= morph_surfaces(a) + (morph_surfaces(b.drop_last()) + b.last().surface@));
    }
}

proof fn lemma_one_morph(m: Morph)
    ensures
        morph_surfaces(seq![m]) == m.surface@,
{
    assert(seq![m].drop_last() =~= Seq::<Morph>::empty());
    assert(seq![m].last() == m);
    assert(morph_surfaces(Seq::<Morph>::empty()) =~= Seq::<char>::empty());
    assert(Seq::<char>::empty() + m.surface@ =~= m.surface@);
}

impl TokenRules {
    proof fn lemma_pieces_spell(&self, ps: Seq<Piece>)
        requires
            forall|k: int| 0 <= k < ps.len() ==> piece_faithful(#[trigger] ps[k]),
        ensures
            morph_surfaces(self.pieces_chosen(ps)) == piece_surfaces(ps),
        decreases ps.len(),
    {
        if ps.len() > 0 {
            assert forall|k: int| 0 <= k < ps.drop_last().len() implies piece_faithful(#[trigger] ps.drop_last()[k]) by {
                assert(ps.drop_last()[k] == ps[k]);
            }
            self.lemma_pieces_spell(ps.drop_last());
            lemma_morph_surfaces_append(self.pieces_chosen(ps.drop_last()), self.piece_chosen(ps.last()));
            assert(piece_faithful(ps[ps.len() - 1]));
            lemma_one_morph(ps.last().morph);
        }
    }

    proof fn lemma_chosen_spells(&self, a: Analysis)
        requires
            analysis_faithful(a),
        ensures
            morph_surfaces(self.chosen(a)) == a.morph.surface@,
    {
        lemma_one_morph(a.morph);
        if !self.keeps_whole_spec(a.morph) {
            match a.middle {
                Some(ps) => self.lemma_pieces_spell(ps@),
                None => {},
            }
        }
    }

    proof fn lemma_all_chosen_spell(&self, xs: Seq<Analysis>)
        requires
            forall|k: int| 0 <= k < xs.len() ==> analysis_faithful(#[trigger] xs[k]),
        ensures
            morph_surfaces(self.all_chosen(xs)) == analysed_text(xs),
        decreases xs.len(),
    {
        if xs.len() > 0 {
            assert forall|k: int| 0 <= k < xs.drop_last().len() implies analysis_faithful(#[trigger] xs.drop_last()[k]) by {
                assert(xs.drop_last()[k] == xs[k]);
            }
            self.lemma_all_chosen_spell(xs.drop_last());
            assert(analysis_faithful(xs[xs.len() - 1]));
            self.lemma_chosen_spells(xs.last());
            lemma_morph_surfaces_append(self.all_chosen(xs.drop_last()), self.chosen(xs.last()));
        }
    }

    proof fn lemma_tokens_of_spell(&self, ms: Seq<Morph>)
        ensures
            view_surfaces(ms.map_values(|m: Morph| self.token_of(m))) == morph_surfaces(ms),
        decreases ms.len(),
    {
        if ms.len() > 0 {
            self.lemma_tokens_of_spell(ms.drop_last());
            assert(ms.map_values(|m: Morph| self.token_of(m)).drop_last() =~= ms.drop_last().map_values(|m: Morph| self.token_of(m)));
        }
    }

    proof fn lemma_heads_spell(&self, xs: Seq<Analysis>)
        ensures
            view_surfaces(xs.map_values(|a: Analysis| self.token_of(a.morph))) == analysed_text(xs),
        decreases xs.len(),
    {
        if xs.len() > 0 {
            self.lemma_heads_spell(xs.drop_last());
            assert(xs.map_values(|a: Analysis| self.token_of(a.morph)).drop_last()
                =~= xs.drop_last().map_values(|a: Analysis| self.token_of(a.morph)));
        }
    }
}

/// The positions of the tokens from `i` on that stammer removal keeps.
pub open spec fn kept_tokens(ts: Seq<Token>, i: int) -> Seq<int>
    decreases ts.len() - i,
{
    if i < 0 || i >= ts.len() {
        Seq::empty()
    } else if crate::tokenize::stammer_at(ts, i) {
        kept_tokens(ts, i + 2)
    } else {
        seq![i] + kept_tokens(ts, i + 1)
    }
}

proof fn lemma_kept_tokens(ts: Seq<Token>, i: int)
    requires
        0 <= i <= ts.len(),
    ensures
        crate::tokenize::unstuttered(ts, i) == kept_tokens(ts, i).map_values(|k: int| ts[k]),
        forall|k: int| 0 <= k < kept_tokens(ts, i).len() ==> i <= #[trigger] kept_tokens(ts, i)[k] < ts.len(),
        forall|a: int, b: int| 0 <= a < b < kept_tokens(ts, i).len() ==> kept_tokens(ts, i)[a] < kept_tokens(ts, i)[b],
    decreases ts.len() - i,
{
    if i < ts.len() {
        if crate::tokenize::stammer_at(ts, i) {
            lemma_kept_tokens(ts, i + 2);
        } else {
            lemma_kept_tokens(ts, i + 1);
            let rest = kept_tokens(ts, i + 1);
            assert((seq![i] + rest).map_values(|k: int| ts[k]) =~= seq![ts[i]] + rest.map_values(|k: int| ts[k]));
            assert forall|a: int, b: int| 0 <= a < b < (seq![i] + rest).len() implies (seq![i] + rest)[a] < (seq![i] + rest)[b] by {
                if a > 0 {
                    assert((seq![i] + rest)[a] == rest[a - 1]);
                }
                assert((seq![i] + rest)[b] == rest[b - 1]);
            }
            assert forall|k: int| 0 <= k < (seq![i] + rest).len() implies i <= #[trigger] (seq![i] + rest)[k] < ts.len() by {
                if k > 0 {
                    assert((seq![i] + rest)[k] == rest[k - 1]);
                }
            }
        }
    }
}

/// A line's tokens keep its text: where every split Sudachi made spells what
/// it split, the segmented tokens spell the line exactly; stammer removal
/// keeps some of them, in order and unchanged; and recomposition then spells
/// exactly what it was given. So every token the pipeline returns sits in the
/// line in order, which is what lets one forward cursor place them.
pub proof fn tokens_keep_the_text_in_order(rules: TokenRules, xs: Seq<Analysis>, ts: Seq<Token>)
    requires
        forall|k: int| 0 <= k < xs.len() ==> analysis_faithful(#[trigger] xs[k]),
        ts.map_values(|t: Token| tv(t)) == rules.segment_spec(xs),
    ensures
        surfaces_of(ts) == analysed_text(xs),
        crate::tokenize::unstuttered(ts, 0) == kept_tokens(ts, 0).map_values(|k: int| ts[k]),
        forall|k: int| 0 <= k < kept_tokens(ts, 0).len() ==> 0 <= #[trigger] kept_tokens(ts, 0)[k] < ts.len(),
        forall|a: int, b: int| 0 <= a < b < kept_tokens(ts, 0).len() ==> kept_tokens(ts, 0)[a] < kept_tokens(ts, 0)[b],
        view_surfaces(rules.recompose_spec(crate::tokenize::unstuttered(ts, 0))) == surfaces_of(crate::tokenize::unstuttered(ts, 0)),
{
    lemma_views_keep_surfaces(ts);
    if rules.mined_empty() && rules.lexicon_empty() {
        rules.lemma_heads_spell(xs);
    } else {
        rules.lemma_all_chosen_spell(xs);
        rules.lemma_tokens_of_spell(rules.all_chosen(xs));
    }
    lemma_kept_tokens(ts, 0);
    recompose_keeps_the_text(rules, crate::tokenize::unstuttered(ts, 0));
}

} // verus!

verus! {

/// Two streams whose tokens read alike, field for field.
pub open spec fn alike(a: Seq<Token>, b: Seq<Token>) -> bool {
    a.map_values(|t: Token| tv(t)) == b.map_values(|t: Token| tv(t))
}

proof fn lemma_alike_pointwise(a: Seq<Token>, b: Seq<Token>)
    requires
        alike(a, b),
    ensures
        a.len() == b.len(),
        forall|i: int| #![trigger a[i]] #![trigger b[i]] 0 <= i < a.len() ==> tv(a[i]) == tv(b[i]),
{
    assert(a.map_values(|t: Token| tv(t)).len() == b.map_values(|t: Token| tv(t)).len());
    assert forall|i: int| #![trigger a[i]] #![trigger b[i]] 0 <= i < a.len() implies tv(a[i]) == tv(b[i]) by {
        assert(a.map_values(|t: Token| tv(t))[i] == b.map_values(|t: Token| tv(t))[i]);
    }
}

proof fn lemma_alike_sub(a: Seq<Token>, b: Seq<Token>, i: int, j: int)
    requires
        alike(a, b),
        0 <= i <= j <= a.len(),
    ensures
        alike(a.subrange(i, j), b.subrange(i, j)),
{
    lemma_alike_pointwise(a, b);
    assert(a.subrange(i, j).map_values(|t: Token| tv(t)) =~= b.subrange(i, j).map_values(|t: Token| tv(t)));
}

proof fn lemma_alike_concat(a: Seq<Token>, b: Seq<Token>)
    requires
        alike(a, b),
    ensures
        surfaces_of(a) == surfaces_of(b),
        spoken_of(a) == spoken_of(b),
    decreases a.len(),
{
    lemma_alike_pointwise(a, b);
    if a.len() > 0 {
        lemma_alike_sub(a, b, 0, a.len() - 1);
        assert(a.subrange(0, a.len() - 1) =~= a.drop_last());
        assert(b.subrange(0, b.len() - 1) =~= b.drop_last());
        lemma_alike_concat(a.drop_last(), b.drop_last());
        assert(tv(a[a.len() - 1]) == tv(b[b.len() - 1]));
    }
}

impl TokenRules {
    proof fn lemma_join_alike(&self, a: Seq<Token>, b: Seq<Token>, ba: Option<Token>, bb: Option<Token>)
        requires
            alike(a, b),
            a.len() >= 2,
            ba is Some <==> bb is Some,
            ba is Some ==> tv(ba->0) == tv(bb->0),
        ensures
            self.join_spec(a, ba) == self.join_spec(b, bb),
    {
        lemma_alike_pointwise(a, b);
        let n = a.len();
        lemma_alike_concat(a, b);
        lemma_alike_sub(a, b, 0, n - 1);
        assert(a.subrange(0, n - 1) =~= a.take(n - 1));
        assert(b.subrange(0, n - 1) =~= b.take(n - 1));
        lemma_alike_concat(a.take(n - 1), b.take(n - 1));
        assert(tv(a[n - 1]) == tv(b[n - 1]));
        assert(tv(a[0]) == tv(b[0]));
        let content_a = forall|i: int| 0 <= i < n ==> content_pos((#[trigger] a[i]).pos@);
        let content_b = forall|i: int| 0 <= i < n ==> content_pos((#[trigger] b[i]).pos@);
        assert(content_a == content_b);
        assert((forall|i: int| 0 <= i < n ==> !(#[trigger] a[i]).inflected) == (forall|i: int| 0 <= i < n ==> !(#[trigger] b[i]).inflected));
        assert((exists|i: int| 0 <= i < n && ((#[trigger] a[i]).surface@.len() == 0 || a[i].proper_noun))
            == (exists|i: int| 0 <= i < n && ((#[trigger] b[i]).surface@.len() == 0 || b[i].proper_noun)));
        assert(self.reading_admitted(a, content_a) == self.reading_admitted(b, content_b)) by {
            assert((forall|i: int| 0 <= i < n ==> (#[trigger] a[i]).pos@ == "動詞"@) == (forall|i: int| 0 <= i < n ==> (#[trigger] b[i]).pos@ == "動詞"@));
            assert((forall|i: int| 0 <= i < n - 1 ==> all_kana((#[trigger] a[i]).surface@)) == (forall|i: int| 0 <= i < n - 1 ==> all_kana((#[trigger] b[i]).surface@)));
            assert((forall|i: int| 0 <= i < n ==> content_pos((#[trigger] a[i]).pos@) || a[i].pos@ == "接尾辞"@)
                == (forall|i: int| 0 <= i < n ==> content_pos((#[trigger] b[i]).pos@) || b[i].pos@ == "接尾辞"@));
            assert((exists|i: int, j: int| 0 <= i < n - 1 && 0 <= j < a[i].surface@.len() && crate::text::kanji::kanji_char(#[trigger] a[i].surface@[j]))
                == (exists|i: int, j: int| 0 <= i < n - 1 && 0 <= j < b[i].surface@.len() && crate::text::kanji::kanji_char(#[trigger] b[i].surface@[j])));
        }
        assert(self.join_choice(a, ba) == self.join_choice(b, bb));
    }

    proof fn lemma_recomposed_alike(&self, a: Seq<Token>, b: Seq<Token>, i: int)
        requires
            alike(a, b),
            0 <= i,
        ensures
            self.recomposed(a, i) == self.recomposed(b, i),
        decreases a.len() - i,
    {
        lemma_alike_pointwise(a, b);
        if i < a.len() {
            let ba = if i > 0 { Some(a[i - 1]) } else { None };
            let bb = if i > 0 { Some(b[i - 1]) } else { None };
            if i + 3 <= a.len() {
                lemma_alike_sub(a, b, i, i + 3);
                self.lemma_join_alike(a.subrange(i, i + 3), b.subrange(i, i + 3), ba, bb);
            }
            if i + 2 <= a.len() {
                lemma_alike_sub(a, b, i, i + 2);
                self.lemma_join_alike(a.subrange(i, i + 2), b.subrange(i, i + 2), ba, bb);
            }
            self.lemma_recomposed_alike(a, b, i + 1);
            if i + 2 <= a.len() { self.lemma_recomposed_alike(a, b, i + 2); }
            if i + 3 <= a.len() { self.lemma_recomposed_alike(a, b, i + 3); }
            assert(tv(a[i]) == tv(b[i]));
        }
    }
}

proof fn lemma_unstuttered_alike(a: Seq<Token>, b: Seq<Token>, i: int)
    requires
        alike(a, b),
        0 <= i,
    ensures
        alike(crate::tokenize::unstuttered(a, i), crate::tokenize::unstuttered(b, i)),
    decreases a.len() - i,
{
    lemma_alike_pointwise(a, b);
    if i < a.len() {
        if i + 2 < a.len() {
            assert(tv(a[i]) == tv(b[i]) && tv(a[i + 1]) == tv(b[i + 1]) && tv(a[i + 2]) == tv(b[i + 2]));
        }
        assert(crate::tokenize::stammer_at(a, i) == crate::tokenize::stammer_at(b, i));
        lemma_unstuttered_alike(a, b, i + 1);
        if i + 2 <= a.len() { lemma_unstuttered_alike(a, b, i + 2); }
        let ua = crate::tokenize::unstuttered(a, i + 1);
        let ub = crate::tokenize::unstuttered(b, i + 1);
        assert((seq![a[i]] + ua).map_values(|t: Token| tv(t)) =~= seq![tv(a[i])] + ua.map_values(|t: Token| tv(t)));
        assert((seq![b[i]] + ub).map_values(|t: Token| tv(t)) =~= seq![tv(b[i])] + ub.map_values(|t: Token| tv(t)));
    } else {
        assert(crate::tokenize::unstuttered(a, i) =~= Seq::<Token>::empty());
        assert(crate::tokenize::unstuttered(b, i) =~= Seq::<Token>::empty());
    }
}

/// What a line tokenizes into does not depend on whether the decisions were
/// recorded: any two token streams `run` may return for the same analyses —
/// one with the recorder on, one with it off — read alike, token for token.
pub proof fn the_tokens_do_not_depend_on_the_trace(rules: TokenRules, xs: Seq<Analysis>, a: Seq<Token>, b: Seq<Token>)
    requires
        a.map_values(|t: Token| tv(t)) == rules.segment_spec(xs),
        b.map_values(|t: Token| tv(t)) == rules.segment_spec(xs),
    ensures
        rules.recompose_spec(crate::tokenize::unstuttered(a, 0)) == rules.recompose_spec(crate::tokenize::unstuttered(b, 0)),
{
    lemma_unstuttered_alike(a, b, 0);
    let ua = crate::tokenize::unstuttered(a, 0);
    let ub = crate::tokenize::unstuttered(b, 0);
    rules.lemma_recomposed_alike(ua, ub, 0);
}

} // verus!

verus! {

impl TokenRules {
    /// `g[k]` is ranked, no ranked candidate of `g` is commoner, and every
    /// ranked candidate before it is strictly rarer.
    pub open spec fn commonest_at(&self, g: Seq<Seq<char>>, rd: Seq<char>, k: int) -> bool {
        &&& 0 <= k < g.len()
        &&& self.rank_spec(g[k], rd) is Some
        &&& forall|j: int| 0 <= j < g.len() && #[trigger] self.rank_spec(g[j], rd) is Some
            ==> self.rank_spec(g[k], rd)->0 <= self.rank_spec(g[j], rd)->0
        &&& forall|j: int| 0 <= j < k && #[trigger] self.rank_spec(g[j], rd) is Some
            ==> self.rank_spec(g[k], rd)->0 < self.rank_spec(g[j], rd)->0
    }

    proof fn lemma_best_from(&self, g: Seq<Seq<char>>, rd: Seq<char>, i: int, best: Option<(Seq<char>, i64)>, k: int) -> (kk: int)
        requires
            0 <= i <= g.len(),
            best matches Some(b) ==> {
                &&& 0 <= k < i && g[k] == b.0 && self.rank_spec(g[k], rd) == Some(b.1)
                &&& forall|j: int| 0 <= j < i && #[trigger] self.rank_spec(g[j], rd) is Some ==> b.1 <= self.rank_spec(g[j], rd)->0
                &&& forall|j: int| 0 <= j < k && #[trigger] self.rank_spec(g[j], rd) is Some ==> b.1 < self.rank_spec(g[j], rd)->0
            },
            best is None ==> forall|j: int| 0 <= j < i ==> #[trigger] self.rank_spec(g[j], rd) is None,
        ensures
            match self.best_from(g, rd, i, best) {
                Some(h) => self.commonest_at(g, rd, kk) && g[kk] == h,
                None => forall|j: int| 0 <= j < g.len() ==> #[trigger] self.rank_spec(g[j], rd) is None,
            },
        decreases g.len() - i,
    {
        if i >= g.len() {
            k
        } else {
            let here = self.rank_spec(g[i], rd);
            let takes_over = here is Some && (match best { Some(cur) => here->0 < cur.1, None => true });
            if takes_over {
                self.lemma_best_from(g, rd, i + 1, Some((g[i], here->0)), i)
            } else {
                self.lemma_best_from(g, rd, i + 1, best, k)
            }
        }
    }
}

/// A reading naming one master headword names it; naming several, it names
/// the commonest of the ranked ones — no ranked candidate has a lower rank,
/// and the first listed wins a tie — and none at all when none is ranked.
pub proof fn a_reading_names_its_commonest_headword(rules: TokenRules, rd: Seq<char>)
    ensures
        rules.read_as(rd).len() == 0 ==> rules.named_by_reading(rd) is None,
        rules.read_as(rd).len() == 1 ==> rules.named_by_reading(rd) == Some(rules.read_as(rd)[0]),
        rules.read_as(rd).len() >= 2 ==> match rules.named_by_reading(rd) {
            Some(h) => exists|k: int| #[trigger] rules.commonest_at(rules.read_as(rd), rd, k) && rules.read_as(rd)[k] == h,
            None => forall|j: int| 0 <= j < rules.read_as(rd).len() ==> #[trigger] rules.rank_spec(rules.read_as(rd)[j], rd) is None,
        },
{
    let g = rules.read_as(rd);
    if g.len() >= 2 {
        let kk = rules.lemma_best_from(g, rd, 0, None, 0);
        match rules.named_by_reading(rd) {
            Some(h) => { assert(rules.commonest_at(g, rd, kk) && g[kk] == h); },
            None => {},
        }
    }
}

/// A reading the text spelled out is never corrected: where the surface is
/// empty or holds any character that is not a kanji, the obsolete-reading
/// correction gives nothing and the listed pair's reading stands.
pub proof fn a_reading_written_out_stands(rules: TokenRules, term: Seq<char>, reading: Seq<char>, surface: Seq<char>, pos: Seq<Seq<char>>)
    requires
        surface.len() == 0 || exists|i: int| 0 <= i < surface.len() && !crate::text::kanji::kanji_char(#[trigger] surface[i]),
    ensures
        rules.overrule(term, reading, surface, pos) is None,
{
}

/// The expressions recomposition may never build: それは, それが, これは,
/// ここに, ものを, 今日は (the greeting is こんにちは, and this is not it) and
/// たらしい.
pub open spec fn fixed_expression(t: Seq<char>) -> bool {
    t == "それは"@ || t == "それが"@ || t == "これは"@ || t == "ここに"@ || t == "ものを"@ || t == "今日は"@ || t == "たらしい"@
}

/// No run is ever joined into one of the fixed expressions.
pub proof fn no_run_joins_into_a_fixed_expression(rules: TokenRules, run: Seq<Token>, before: Option<Token>)
    requires
        run.len() >= 2,
    ensures
        rules.join_spec(run, before) matches Some(v) ==> !fixed_expression(v.1),
{
}

impl TokenRules {
    proof fn lemma_recomposed_fixed(&self, ts: Seq<Token>, i: int)
        requires
            0 <= i,
        ensures
            forall|k: int| 0 <= k < self.recomposed(ts, i).len() && fixed_expression(#[trigger] self.recomposed(ts, i)[k].1)
                ==> exists|j: int| 0 <= j < ts.len() && self.recomposed(ts, i)[k] == tv(#[trigger] ts[j]),
        decreases ts.len() - i,
    {
        if i < ts.len() {
            let before = if i > 0 { Some(ts[i - 1]) } else { None };
            let r = self.recomposed(ts, i);
            let step: int = if i + 3 <= ts.len() && self.join_spec(ts.subrange(i, i + 3), before) is Some {
                3
            } else if i + 2 <= ts.len() && self.join_spec(ts.subrange(i, i + 2), before) is Some {
                2
            } else {
                1
            };
            self.lemma_recomposed_fixed(ts, i + step);
            let rest = self.recomposed(ts, i + step);
            assert(r =~= seq![r[0]] + rest);
            if step == 3 {
                no_run_joins_into_a_fixed_expression(*self, ts.subrange(i, i + 3), before);
            } else if step == 2 {
                no_run_joins_into_a_fixed_expression(*self, ts.subrange(i, i + 2), before);
            }
            assert forall|k: int| 0 <= k < r.len() && fixed_expression(#[trigger] r[k].1)
                implies exists|j: int| 0 <= j < ts.len() && r[k] == tv(#[trigger] ts[j]) by {
                if k == 0 {
                    assert(r[0] == tv(ts[i]));
                } else {
                    assert(r[k] == rest[k - 1]);
                }
            }
        }
    }
}

/// Recomposition never builds a fixed expression: a token of its output whose
/// headword is one is a token it was given, passed through unjoined.
pub proof fn recomposition_never_builds_a_fixed_expression(rules: TokenRules, ts: Seq<Token>)
    ensures
        forall|k: int| 0 <= k < rules.recompose_spec(ts).len() && fixed_expression(#[trigger] rules.recompose_spec(ts)[k].1)
            ==> exists|j: int| 0 <= j < ts.len() && rules.recompose_spec(ts)[k] == tv(#[trigger] ts[j]),
{
    if rules.lexicon_empty() && !rules.readings_loaded() {
        assert forall|k: int| 0 <= k < rules.recompose_spec(ts).len() && fixed_expression(#[trigger] rules.recompose_spec(ts)[k].1)
            implies exists|j: int| 0 <= j < ts.len() && rules.recompose_spec(ts)[k] == tv(#[trigger] ts[j]) by {
            assert(rules.recompose_spec(ts)[k] == tv(ts[k]));
        }
    } else {
        rules.lemma_recomposed_fixed(ts, 0);
    }
}

} // verus!
