//! What a word means — the answer a popup draws, assembled out of the
//! dictionary cache — and the other readings a clicked position offers.
//!
//! Segmentation is not repeated here: the caller passes back the
//! `(headword, reading)` the ledger keys on. [`expansion_candidates`] is the
//! way out when the tokenizer split a word: it lists every prefix of the line
//! from the clicked position, so the reader can pick out a compound nothing
//! downstream could have joined.
use vstd::prelude::*;
use vstd::hash_set::StringHashSet;
use crate::knowledge::dictionaries::{Dictionary, Role};
use crate::knowledge::vocabulary::{term_key, Status, Term, VocabRow};
use crate::highlight::{find_row, row_for};
use crate::strings::{chars_of, same};
use crate::text::kana::{hiragana, to_hiragana};
use crate::text::kanji::{is_kanji, kanji_char};

verus! {

broadcast use vstd::seq_lib::group_seq_properties;

/// What one character of a title becomes in its CSS class: a letter or digit
/// lower-cased (kept as it is where it has no lowercase mapping), anything
/// else a hyphen.
pub open spec fn slug_char(c: char) -> char {
    if crate::strings::alphanumeric(c) {
        match crate::strings::lowercase_first(c) {
            Some(l) => l,
            None => c,
        }
    } else {
        '-'
    }
}

/// A CSS class for a dictionary's page: its title, one character for each,
/// lower-cased, with anything that is not a letter or digit a hyphen. Each
/// dictionary's markup means its own thing, so its rules are scoped by this.
pub fn css_slug(title: &str) -> (r: String)
    ensures
        r@ == title@.map_values(|c: char| slug_char(c)),
{
    let mut out = String::new();
    for c in it: title.chars()
        invariant
            it.seq() == title@,
            out@ == title@.take(it.index() as int).map_values(|c: char| slug_char(c)),
    {
        let s = if crate::strings::is_alphanumeric(c) {
            match crate::strings::to_lowercase_first(c) {
                Some(l) => l,
                None => c,
            }
        } else {
            '-'
        };
        crate::strings::push_char(&mut out, s);
        proof {
            assert(title@.take(it.index() as int + 1).map_values(|c: char| slug_char(c))
                =~= title@.take(it.index() as int).map_values(|c: char| slug_char(c)).push(slug_char(c)));
        }
    }
    proof { assert(title@.take(title@.len() as int) =~= title@); }
    out
}

/// The frequency list that ranks a *spelling with a reading*, shown beside the
/// reader-facing rank because the two disagree loudly.
pub const CORPUS_FREQUENCY: &'static str = "BCCWJ";

/// The dictionary that follows the master in the popup. Named rather than
/// derived: install order says nothing about which definition is worth
/// reading first.
pub const SECOND_PAGE: &'static str = "Jitendex";

/// How far to the right a scan reaches, in characters.
pub const EXPAND_MAX_CHARS: usize = 10;

/// And in tokens, for the deinflected candidates: noun + particle + verb, with
/// room for a second particle.
pub const EXPAND_MAX_TOKENS: usize = 5;

pub struct Sense {
    pub reading: String,
    pub definitions: Vec<String>,
}

pub struct Source {
    pub dictionary: String,
    /// What the popup keys its styling on, since each dictionary's markup
    /// means its own thing.
    pub slug: String,
    pub senses: Vec<Sense>,
}

pub struct Pitch {
    pub reading: String,
    /// Downstep positions: 0 is heiban, 1 atamadaka, n the mora it falls after.
    pub positions: Vec<u32>,
}

pub struct Definition {
    pub term: String,
    /// Ranked by the reader's frequency dictionary.
    pub jiten: Option<i64>,
    /// Ranked by [`CORPUS_FREQUENCY`], over the spelling alone.
    pub bccwj: Option<i64>,
    /// Master dictionary first, then the second page, then the rest in install
    /// order. A dictionary holding nothing for this term is absent.
    pub sources: Vec<Source>,
    /// From the first dictionary that carries pitch, narrowed to the asked-for
    /// reading.
    pub pitch: Vec<Pitch>,
    /// The lookup row this popup was recorded as; filled by the caller.
    pub lookup_id: Option<i64>,
}

/// Whether `a` answers before `b`: a lower priority, then a lower id.
pub open spec fn answers_before(a: Dictionary, b: Dictionary) -> bool {
    a.priority < b.priority || (a.priority == b.priority && a.id < b.id)
}

/// The reader's frequency list: the frequency dictionary that answers first —
/// the lowest priority, then the lowest id, then the first listed.
pub open spec fn reader_list(dicts: Seq<Dictionary>, k: int) -> bool {
    &&& 0 <= k < dicts.len()
    &&& dicts[k].role == Role::Frequency
    &&& forall|j: int| 0 <= j < dicts.len() && dicts[j].role == Role::Frequency ==>
        answers_before(dicts[k], dicts[j]) || (dicts[k].priority == dicts[j].priority && dicts[k].id == dicts[j].id && k <= j)
}

/// The frequency dictionary that answers first by priority, if any is
/// installed: `priority` decides which frequency list is the reader's.
pub fn reader_frequency(dicts: &Vec<Dictionary>) -> (r: Option<usize>)
    ensures
        match r {
            Some(k) => reader_list(dicts@, k as int),
            None => forall|j: int| 0 <= j < dicts.len() ==> dicts@[j].role != Role::Frequency,
        },
{
    let mut best: Option<usize> = None;
    for i in 0..dicts.len()
        invariant
            match best {
                Some(k) => k < i && dicts@[k as int].role == Role::Frequency
                    && forall|j: int| 0 <= j < i && dicts@[j].role == Role::Frequency ==>
                        answers_before(dicts@[k as int], dicts@[j])
                        || (dicts@[k as int].priority == dicts@[j].priority && dicts@[k as int].id == dicts@[j].id && k <= j),
                None => forall|j: int| 0 <= j < i ==> dicts@[j].role != Role::Frequency,
            },
    {
        if dicts[i].role == Role::Frequency {
            match best {
                Some(k) => {
                    if dicts[i].priority < dicts[k].priority
                        || (dicts[i].priority == dicts[k].priority && dicts[i].id < dicts[k].id) {
                        best = Some(i);
                    }
                },
                None => {
                    best = Some(i);
                },
            }
        }
    }
    best
}

/// The first dictionary with this title.
pub fn titled(dicts: &Vec<Dictionary>, title: &str) -> (r: Option<usize>)
    ensures
        match r {
            Some(k) => k < dicts.len() && dicts@[k as int].title@ == title@
                && forall|j: int| 0 <= j < k ==> dicts@[j].title@ != title@,
            None => forall|j: int| 0 <= j < dicts.len() ==> dicts@[j].title@ != title@,
        },
{
    for i in 0..dicts.len()
        invariant
            forall|j: int| 0 <= j < i ==> dicts@[j].title@ != title@,
    {
        if same(dicts[i].title.as_str(), title) {
            return Some(i);
        }
    }
    None
}

/// A sense as contracts see it.
pub open spec fn sense_view(s: Sense) -> (Seq<char>, Seq<Seq<char>>) {
    (s.reading@, s.definitions.deep_view())
}

/// One entry's reading and definitions, as a sense.
pub open spec fn entry_sense(e: (String, Vec<String>)) -> (Seq<char>, Seq<Seq<char>>) {
    (e.0@, e.1.deep_view())
}

/// Whether an entry is of this reading.
pub open spec fn of_reading(r: Seq<char>) -> spec_fn((String, Vec<String>)) -> bool {
    |e: (String, Vec<String>)| e.0@ == r
}

/// Senses as contracts see them.
pub open spec fn sense_views(v: Seq<Sense>) -> Seq<(Seq<char>, Seq<Seq<char>>)> {
    v.map_values(|s: Sense| sense_view(s))
}

/// Entries as the senses they show.
pub open spec fn entry_senses(v: Seq<(String, Vec<String>)>) -> Seq<(Seq<char>, Seq<Seq<char>>)> {
    v.map_values(|e: (String, Vec<String>)| entry_sense(e))
}

/// The entries a popup shows for a reading: those of that reading when the
/// dictionary lists it, and every one otherwise — the tokenizer and the
/// dictionary can disagree about how a word is read, and showing every reading
/// beats showing nothing.
pub open spec fn shown_entries(entries: Seq<(String, Vec<String>)>, reading: Option<Seq<char>>) -> Seq<(String, Vec<String>)> {
    match reading {
        Some(r) => if exists|i: int| 0 <= i < entries.len() && (#[trigger] entries[i]).0@ == r {
            entries.filter(of_reading(r))
        } else {
            entries
        },
        None => entries,
    }
}

fn copy_sense(e: &(String, Vec<String>)) -> (r: Sense)
    ensures
        sense_view(r) == entry_sense(*e),
{
    Sense { reading: e.0.clone(), definitions: crate::tables::copy_strings(&e.1) }
}

/// The senses one dictionary shows for a term, from its entries as
/// `(reading, definitions)`.
pub fn senses_for(entries: &Vec<(String, Vec<String>)>, reading: Option<&str>) -> (r: Vec<Sense>)
    ensures
        sense_views(r@) == entry_senses(shown_entries(entries@, match reading { Some(x) => Some(x@), None => None })),
{
    let ghost rv = match reading { Some(x) => Some(x@), None => None::<Seq<char>> };
    let mut listed = false;
    match reading {
        Some(rd) => {
            for i in 0..entries.len()
                invariant
                    listed == exists|j: int| 0 <= j < i && (#[trigger] entries@[j]).0@ == rd@,
            {
                if same(entries[i].0.as_str(), rd) {
                    listed = true;
                }
            }
        },
        None => {},
    }
    let mut out: Vec<Sense> = Vec::new();
    let ghost mut taken: Seq<(String, Vec<String>)> = Seq::empty();
    for i in 0..entries.len()
        invariant
            rv == (match reading { Some(x) => Some(x@), None => None::<Seq<char>> }),
            listed == (match reading { Some(rd) => exists|j: int| 0 <= j < entries.len() && (#[trigger] entries@[j]).0@ == rd@, None => false }),
            taken == (if listed { entries@.take(i as int).filter(of_reading(rv->0)) } else { entries@.take(i as int) }),
            sense_views(out@) == entry_senses(taken),
    {
        let ghost pre = entries@.take(i as int + 1);
        proof {
            assert(pre.drop_last() =~= entries@.take(i as int));
            assert(pre.last() == entries@[i as int]);
            reveal(Seq::filter);
        }
        let keep = match reading {
            Some(rd) => !listed || same(entries[i].0.as_str(), rd),
            None => true,
        };
        if keep {
            let ghost before = out@;
            out.push(copy_sense(&entries[i]));
            proof {
                assert(sense_views(out@) =~= sense_views(before).push(entry_sense(entries@[i as int])));
                taken = taken.push(entries@[i as int]);
                assert(entry_senses(taken) =~= entry_senses(taken.drop_last()).push(entry_sense(entries@[i as int])));
            }
        }
    }
    proof {
        assert(entries@.take(entries@.len() as int) =~= entries@);
    }
    out
}

} // verus!

verus! {

/// A source as contracts see it.
pub open spec fn source_view(s: Source) -> (Seq<char>, Seq<char>, Seq<(Seq<char>, Seq<Seq<char>>)>) {
    (s.dictionary@, s.slug@, sense_views(s.senses@))
}

pub open spec fn source_views(v: Seq<Source>) -> Seq<(Seq<char>, Seq<char>, Seq<(Seq<char>, Seq<Seq<char>>)>)> {
    v.map_values(|s: Source| source_view(s))
}

/// Where a dictionary's page goes: the master first, then the second page,
/// then everything else.
pub open spec fn page_tier(dicts: Seq<Dictionary>, title: Seq<char>) -> int {
    if exists|j: int| 0 <= j < dicts.len() && (#[trigger] dicts[j]).title@ == title && dicts[j].role == Role::Master {
        0
    } else if title == SECOND_PAGE@ {
        1
    } else {
        2
    }
}

/// The sources of one tier, in their order.
pub open spec fn of_tier(sources: Seq<Source>, dicts: Seq<Dictionary>, t: int) -> Seq<Source>
    decreases sources.len(),
{
    if sources.len() == 0 {
        Seq::empty()
    } else {
        let d = of_tier(sources.drop_last(), dicts, t);
        if page_tier(dicts, sources.last().dictionary@) == t { d.push(sources.last()) } else { d }
    }
}

fn tier_of(dicts: &Vec<Dictionary>, title: &str) -> (r: u8)
    ensures
        r == page_tier(dicts@, title@),
{
    for j in 0..dicts.len()
        invariant
            forall|k: int| 0 <= k < j ==> !((#[trigger] dicts@[k]).title@ == title@ && dicts@[k].role == Role::Master),
    {
        if dicts[j].role == Role::Master && same(dicts[j].title.as_str(), title) {
            return 0;
        }
    }
    if same(title, SECOND_PAGE) { 1 } else { 2 }
}

fn copy_source(s: &Source) -> (r: Source)
    ensures
        source_view(r) == source_view(*s),
{
    let mut senses: Vec<Sense> = Vec::new();
    for i in 0..s.senses.len()
        invariant
            sense_views(senses@) == sense_views(s.senses@.take(i as int)),
    {
        let ghost before = senses@;
        let x = &s.senses[i];
        senses.push(Sense { reading: x.reading.clone(), definitions: crate::tables::copy_strings(&x.definitions) });
        proof {
            assert(sense_views(senses@) =~= sense_views(before).push(sense_view(s.senses@[i as int])));
            assert(s.senses@.take(i as int + 1) =~= s.senses@.take(i as int).push(s.senses@[i as int]));
            assert(sense_views(s.senses@.take(i as int + 1)) =~= sense_views(s.senses@.take(i as int)).push(sense_view(s.senses@[i as int])));
        }
    }
    proof { assert(s.senses@.take(s.senses@.len() as int) =~= s.senses@); }
    Source { dictionary: s.dictionary.clone(), slug: s.slug.clone(), senses }
}

/// The sources in page order: the master, then the second page, then the rest
/// in the order they came — a stable order, so each tier keeps it.
pub fn in_page_order(sources: &Vec<Source>, dicts: &Vec<Dictionary>) -> (r: Vec<Source>)
    ensures
        source_views(r@) == source_views(of_tier(sources@, dicts@, 0)) + source_views(of_tier(sources@, dicts@, 1))
            + source_views(of_tier(sources@, dicts@, 2)),
{
    let mut tiers: Vec<u8> = Vec::new();
    for i in 0..sources.len()
        invariant
            tiers.len() == i,
            forall|k: int| 0 <= k < i ==> tiers@[k] == page_tier(dicts@, (#[trigger] sources@[k]).dictionary@),
    {
        tiers.push(tier_of(dicts, sources[i].dictionary.as_str()));
    }
    let mut out: Vec<Source> = Vec::new();
    let mut t: u8 = 0;
    while t < 3
        invariant
            t <= 3,
            tiers.len() == sources.len(),
            forall|k: int| 0 <= k < sources.len() ==> tiers@[k] == page_tier(dicts@, (#[trigger] sources@[k]).dictionary@),
            source_views(out@) == (if t == 0 {
                Seq::empty()
            } else if t == 1 {
                source_views(of_tier(sources@, dicts@, 0))
            } else if t == 2 {
                source_views(of_tier(sources@, dicts@, 0)) + source_views(of_tier(sources@, dicts@, 1))
            } else {
                source_views(of_tier(sources@, dicts@, 0)) + source_views(of_tier(sources@, dicts@, 1))
                    + source_views(of_tier(sources@, dicts@, 2))
            }),
        decreases 3 - t,
    {
        let ghost start = source_views(out@);
        for i in 0..sources.len()
            invariant
                t < 3,
                tiers.len() == sources.len(),
                forall|k: int| 0 <= k < sources.len() ==> tiers@[k] == page_tier(dicts@, (#[trigger] sources@[k]).dictionary@),
                source_views(out@) == start + source_views(of_tier(sources@.take(i as int), dicts@, t as int)),
        {
            let ghost pre = sources@.take(i as int + 1);
            proof {
                assert(pre.drop_last() =~= sources@.take(i as int));
                assert(pre.last() == sources@[i as int]);
            }
            if tiers[i] == t {
                let ghost before = out@;
                out.push(copy_source(&sources[i]));
                proof {
                    assert(source_views(out@) =~= source_views(before).push(source_view(sources@[i as int])));
                    assert(source_views(of_tier(pre, dicts@, t as int)) =~= source_views(of_tier(sources@.take(i as int), dicts@, t as int)).push(source_view(sources@[i as int])));
                }
            }
        }
        proof {
            assert(sources@.take(sources@.len() as int) =~= sources@);
            assert(source_views(out@) =~= start + source_views(of_tier(sources@, dicts@, t as int)));
        }
        t = t + 1;
    }
    out
}

/// A pitch as contracts see it.
pub open spec fn pitch_view(p: Pitch) -> (Seq<char>, Seq<u32>) {
    (p.reading@, p.positions@)
}

/// The pitch entries shown for a reading: those of that reading, or all of
/// them when no reading was asked for.
pub open spec fn pitches_shown(entries: Seq<(String, Vec<u32>)>, reading: Option<Seq<char>>) -> Seq<(Seq<char>, Seq<u32>)>
    decreases entries.len(),
{
    if entries.len() == 0 {
        Seq::empty()
    } else {
        let d = pitches_shown(entries.drop_last(), reading);
        let e = entries.last();
        if reading is None || reading == Some(e.0@) { d.push((e.0@, e.1@)) } else { d }
    }
}

/// One pitch dictionary's entries for a term, narrowed to the asked-for
/// reading: the accent is a property of the reading, and 空/そら's is not
/// 空/から's.
pub fn pitch_for(entries: &Vec<(String, Vec<u32>)>, reading: Option<&str>) -> (r: Vec<Pitch>)
    ensures
        r@.map_values(|p: Pitch| pitch_view(p)) == pitches_shown(entries@, match reading { Some(x) => Some(x@), None => None }),
{
    let ghost rv = match reading { Some(x) => Some(x@), None => None::<Seq<char>> };
    let mut out: Vec<Pitch> = Vec::new();
    for i in 0..entries.len()
        invariant
            rv == (match reading { Some(x) => Some(x@), None => None::<Seq<char>> }),
            out@.map_values(|p: Pitch| pitch_view(p)) == pitches_shown(entries@.take(i as int), rv),
    {
        let ghost pre = entries@.take(i as int + 1);
        proof {
            assert(pre.drop_last() =~= entries@.take(i as int));
            assert(pre.last() == entries@[i as int]);
        }
        let keep = match reading {
            Some(rd) => same(entries[i].0.as_str(), rd),
            None => true,
        };
        if keep {
            let ghost before = out@;
            out.push(Pitch { reading: entries[i].0.clone(), positions: entries[i].1.clone() });
            proof {
                assert(out@.map_values(|p: Pitch| pitch_view(p)) =~= before.map_values(|p: Pitch| pitch_view(p)).push((entries@[i as int].0@, entries@[i as int].1@)));
            }
        }
    }
    proof { assert(entries@.take(entries@.len() as int) =~= entries@); }
    out
}

} // verus!

verus! {

/// The part of the line a scan reaches.
pub open spec fn scan_window(text: Seq<char>) -> Seq<char> {
    if text.len() <= EXPAND_MAX_CHARS { text } else { text.take(EXPAND_MAX_CHARS as int) }
}

/// The shortest literal prefix offered: a single kanji counts, since it is the
/// shape that most needs a second reading offered (粋 is いき or すい); a
/// single kana never does — を, の and た would put a particle chip in every
/// popup.
pub open spec fn shortest_prefix(w: Seq<char>) -> int {
    if w.len() > 0 && kanji_char(w[0]) { 1 } else { 2 }
}

/// Whether `x` is a literal prefix of the line that a scan offers.
pub open spec fn literal_candidate(text: Seq<char>, x: Seq<char>) -> bool {
    let w = scan_window(text);
    &&& shortest_prefix(w) <= x.len() <= w.len()
    &&& x == w.take(x.len() as int)
}

/// A literal prefix, or a deinflected prefix form longer than one character.
pub open spec fn base_candidate(text: Seq<char>, forms: Seq<Seq<char>>, x: Seq<char>) -> bool {
    literal_candidate(text, x) || (forms.contains(x) && x.len() > 1)
}

/// What a scan looks up: the base candidates, and each in hiragana — a line
/// writing アレ means あれ, and only あれ is a headword.
pub open spec fn scan_candidate(text: Seq<char>, forms: Seq<Seq<char>>, x: Seq<char>) -> bool {
    ||| base_candidate(text, forms, x)
    ||| exists|y: Seq<char>| #[trigger] base_candidate(text, forms, y) && x == hiragana(y)
}

/// The spellings to look up for a clicked position, each once, given the line
/// from the clicked word's first character on and the deinflected prefix forms
/// of it.
pub fn expansion_candidates(text: &str, forms: &Vec<String>) -> (r: Vec<String>)
    ensures
        r.deep_view().no_duplicates(),
        forall|x: Seq<char>| #[trigger] r.deep_view().contains(x) == scan_candidate(text@, forms.deep_view(), x),
{
    let all = chars_of(text);
    let n = if all.len() <= EXPAND_MAX_CHARS { all.len() } else { EXPAND_MAX_CHARS };
    let ghost w = scan_window(text@);
    proof {
        assert(w =~= all@.take(n as int));
    }
    let shortest: usize = if n > 0 && is_kanji(all[0]) { 1 } else { 2 };
    let mut out: Vec<String> = Vec::new();
    let mut seen = StringHashSet::new();
    let mut cur = String::new();
    for k in 0..n
        invariant
            all@ == text@,
            w == all@.take(n as int),
            n <= all.len(),
            w.len() == n,
            shortest == shortest_prefix(w),
            cur@ == w.take(k as int),
            out.deep_view().no_duplicates(),
            forall|x: Seq<char>| #[trigger] seen@.contains(x) == out.deep_view().contains(x),
            forall|x: Seq<char>| #[trigger] out.deep_view().contains(x)
                == (shortest_prefix(w) <= x.len() <= k && x == w.take(x.len() as int)),
    {
        crate::strings::push_char(&mut cur, all[k]);
        proof {
            assert(cur@ =~= w.take(k as int + 1));
        }
        if k + 1 >= shortest {
            crate::tables::add_once(&mut out, &mut seen, cur.clone());
        }
        proof {
            assert forall|x: Seq<char>| #[trigger] out.deep_view().contains(x)
                == (shortest_prefix(w) <= x.len() <= k + 1 && x == w.take(x.len() as int)) by {
                if x.len() == k + 1 && x == w.take(x.len() as int) {
                    assert(x == cur@);
                }
            }
        }
    }
    let base_literals = out.len();
    for j in 0..forms.len()
        invariant
            out.deep_view().no_duplicates(),
            forall|x: Seq<char>| #[trigger] seen@.contains(x) == out.deep_view().contains(x),
            forall|x: Seq<char>| #[trigger] out.deep_view().contains(x)
                == (literal_candidate(text@, x) || (forms.deep_view().take(j as int).contains(x) && x.len() > 1)),
    {
        proof {
            assert(forms.deep_view().take(j as int + 1) =~= forms.deep_view().take(j as int).push(forms.deep_view()[j as int]));
        }
        if crate::strings::char_len(forms[j].as_str()) > 1 {
            crate::tables::add_once(&mut out, &mut seen, forms[j].clone());
        }
    }
    proof {
        assert(forms.deep_view().take(forms.len() as int) =~= forms.deep_view());
    }
    let ghost base = out.deep_view();
    let m = out.len();
    for j in 0..m
        invariant
            m <= out.len(),
            base.len() == m,
            out.deep_view().take(m as int) == base,
            forall|x: Seq<char>| #[trigger] base.contains(x) == base_candidate(text@, forms.deep_view(), x),
            out.deep_view().no_duplicates(),
            forall|x: Seq<char>| #[trigger] seen@.contains(x) == out.deep_view().contains(x),
            forall|x: Seq<char>| #[trigger] out.deep_view().contains(x)
                == (base.contains(x) || exists|y: int| 0 <= y < j && x == hiragana(#[trigger] base[y])),
    {
        let folded = to_hiragana(out[j].as_str());
        proof {
            assert(out.deep_view()[j as int] == base[j as int]);
        }
        let ghost before = out.deep_view();
        let ghost old_len = out.len();
        crate::tables::add_once(&mut out, &mut seen, folded);
        proof {
            assert(before.len() == old_len);
            assert(out.deep_view().len() == out.len());
            assert(before.take(m as int) =~= base);
            assert(out.deep_view().take(m as int) =~= before.take(m as int));
            assert forall|x: Seq<char>| #[trigger] out.deep_view().contains(x)
                == (base.contains(x) || exists|y: int| 0 <= y < j + 1 && x == hiragana(#[trigger] base[y])) by {
                if exists|y: int| 0 <= y < j + 1 && x == hiragana(#[trigger] base[y]) {
                    let y = choose|y: int| 0 <= y < j + 1 && x == hiragana(#[trigger] base[y]);
                    if y < j {
                        assert(exists|y2: int| 0 <= y2 < j && x == hiragana(#[trigger] base[y2]));
                    }
                }
            }
        }
    }
    proof {
        assert forall|x: Seq<char>| #[trigger] out.deep_view().contains(x) == scan_candidate(text@, forms.deep_view(), x) by {
            if exists|y: Seq<char>| #[trigger] base_candidate(text@, forms.deep_view(), y) && x == hiragana(y) {
                let y = choose|y: Seq<char>| #[trigger] base_candidate(text@, forms.deep_view(), y) && x == hiragana(y);
                assert(base.contains(y));
                let k = choose|k: int| 0 <= k < base.len() && base[k] == y;
                assert(x == hiragana(base[k]));
            }
            if exists|y: int| 0 <= y < m && x == hiragana(#[trigger] base[y]) {
                let y = choose|y: int| 0 <= y < m && x == hiragana(#[trigger] base[y]);
                assert(base.contains(base[y]));
                assert(base_candidate(text@, forms.deep_view(), base[y]));
            }
        }
    }
    out
}

} // verus!

verus! {

/// A spelling some dictionary lists for a clicked position: its readings, and
/// the dictionaries listing it, each once in the order first met.
pub struct Found {
    pub term: String,
    pub readings: Vec<String>,
    pub dictionaries: Vec<String>,
}

pub open spec fn found_view(f: Found) -> (Seq<char>, Seq<Seq<char>>, Seq<Seq<char>>) {
    (f.term@, f.readings.deep_view(), f.dictionaries.deep_view())
}

pub open spec fn found_views(v: Seq<Found>) -> Seq<(Seq<char>, Seq<Seq<char>>, Seq<Seq<char>>)> {
    v.map_values(|f: Found| found_view(f))
}

/// Where a spelling already stands among the found.
pub open spec fn slot_of(fs: Seq<(Seq<char>, Seq<Seq<char>>, Seq<Seq<char>>)>, term: Seq<char>) -> Option<int>
    decreases fs.len(),
{
    if fs.len() == 0 {
        None
    } else {
        match slot_of(fs.drop_last(), term) {
            Some(k) => Some(k),
            None => if fs.last().0 == term { Some(fs.len() - 1) } else { None },
        }
    }
}

/// One `(term, reading)` row of a dictionary, added to a found spelling: the
/// reading unless it is empty or there already, the dictionary unless there
/// already.
pub open spec fn with_row(f: (Seq<char>, Seq<Seq<char>>, Seq<Seq<char>>), reading: Seq<char>, title: Seq<char>)
    -> (Seq<char>, Seq<Seq<char>>, Seq<Seq<char>>) {
    (
        f.0,
        if reading.len() > 0 && !f.1.contains(reading) { f.1.push(reading) } else { f.1 },
        if !f.2.contains(title) { f.2.push(title) } else { f.2 },
    )
}

/// The found spellings after a dictionary's rows were gathered into them.
pub open spec fn gathered(
    fs: Seq<(Seq<char>, Seq<Seq<char>>, Seq<Seq<char>>)>,
    rows: Seq<(String, String)>,
    title: Seq<char>,
) -> Seq<(Seq<char>, Seq<Seq<char>>, Seq<Seq<char>>)>
    decreases rows.len(),
{
    if rows.len() == 0 {
        fs
    } else {
        let g = gathered(fs, rows.drop_last(), title);
        let (t, r) = (rows.last().0@, rows.last().1@);
        match slot_of(g, t) {
            Some(k) => g.update(k, with_row(g[k], r, title)),
            None => g.push(with_row((t, Seq::empty(), Seq::empty()), r, title)),
        }
    }
}

proof fn lemma_slot_of(fs: Seq<(Seq<char>, Seq<Seq<char>>, Seq<Seq<char>>)>, term: Seq<char>)
    ensures
        match slot_of(fs, term) {
            Some(k) => 0 <= k < fs.len() && fs[k].0 == term && forall|j: int| 0 <= j < k ==> fs[j].0 != term,
            None => forall|j: int| 0 <= j < fs.len() ==> fs[j].0 != term,
        },
    decreases fs.len(),
{
    if fs.len() > 0 {
        let d = fs.drop_last();
        lemma_slot_of(d, term);
        assert(forall|j: int| 0 <= j < d.len() ==> d[j] == fs[j]);
    }
}

fn find_slot(found: &Vec<Found>, term: &str) -> (r: Option<usize>)
    ensures
        match r {
            Some(k) => k < found.len() && slot_of(found_views(found@), term@) == Some(k as int),
            None => slot_of(found_views(found@), term@) is None,
        },
{
    proof { lemma_slot_of(found_views(found@), term@); }
    for i in 0..found.len()
        invariant
            forall|j: int| 0 <= j < i ==> found_views(found@)[j].0 != term@,
    {
        if same(found[i].term.as_str(), term) {
            proof {
                assert(found_views(found@)[i as int] == found_view(found@[i as int]));
                lemma_slot_of(found_views(found@), term@);
                match slot_of(found_views(found@), term@) {
                    Some(k) => {
                        if k < i {
                            assert(found_views(found@)[k].0 != term@);
                        }
                        if k > i {
                            assert(found_views(found@)[i as int].0 == term@);
                        }
                    },
                    None => {
                        assert(found_views(found@)[i as int].0 == term@);
                    },
                }
            }
            return Some(i);
        }
    }
    proof {
        match slot_of(found_views(found@), term@) {
            Some(k) => {
                assert(found_views(found@)[k].0 != term@);
            },
            None => {},
        }
    }
    None
}

fn row_added(f: &Found, reading: &str, title: &str) -> (r: Found)
    ensures
        found_view(r) == with_row(found_view(*f), reading@, title@),
{
    let mut readings = crate::tables::copy_strings(&f.readings);
    if !reading.is_empty() && !crate::tables::holds(&readings, reading) {
        let ghost before = readings.deep_view();
        readings.push(reading.to_owned());
        proof { assert(readings.deep_view() =~= before.push(reading@)); }
    }
    let mut dictionaries = crate::tables::copy_strings(&f.dictionaries);
    if !crate::tables::holds(&dictionaries, title) {
        let ghost before = dictionaries.deep_view();
        dictionaries.push(title.to_owned());
        proof { assert(dictionaries.deep_view() =~= before.push(title@)); }
    }
    Found { term: f.term.clone(), readings, dictionaries }
}

/// Gather one dictionary's `(term, reading)` rows for the candidates into the
/// spellings found so far.
pub fn gather(found: &mut Vec<Found>, rows: &Vec<(String, String)>, title: &str)
    ensures
        found_views(final(found)@) == gathered(found_views(old(found)@), rows@, title@),
{
    let ghost start = found_views(found@);
    for i in 0..rows.len()
        invariant
            found_views(found@) == gathered(start, rows@.take(i as int), title@),
    {
        let ghost pre = rows@.take(i as int + 1);
        proof {
            assert(pre.drop_last() =~= rows@.take(i as int));
            assert(pre.last() == rows@[i as int]);
        }
        let term = rows[i].0.as_str();
        let reading = rows[i].1.as_str();
        let ghost g = found_views(found@);
        match find_slot(found, term) {
            Some(k) => {
                let f = row_added(&found[k], reading, title);
                found.set(k, f);
                proof { assert(found_views(found@) =~= g.update(k as int, with_row(g[k as int], reading@, title@))); }
            },
            None => {
                let fresh = Found { term: rows[i].0.clone(), readings: Vec::new(), dictionaries: Vec::new() };
                proof { assert(found_view(fresh) == (term@, Seq::<Seq<char>>::empty(), Seq::<Seq<char>>::empty())); }
                let f = row_added(&fresh, reading, title);
                found.push(f);
                proof { assert(found_views(found@) =~= g.push(with_row((term@, Seq::empty(), Seq::empty()), reading@, title@))); }
            },
        }
    }
    proof { assert(rows@.take(rows@.len() as int) =~= rows@); }
}

} // verus!

verus! {

/// The found spellings of one length, in order.
pub open spec fn of_length(fs: Seq<(Seq<char>, Seq<Seq<char>>, Seq<Seq<char>>)>, n: int) -> Seq<(Seq<char>, Seq<Seq<char>>, Seq<Seq<char>>)>
    decreases fs.len(),
{
    if fs.len() == 0 {
        Seq::empty()
    } else {
        let d = of_length(fs.drop_last(), n);
        if fs.last().0.len() == n { d.push(fs.last()) } else { d }
    }
}

/// The `k` longest layers from length `hi` down: length `hi`, then `hi - 1`,
/// and so on.
pub open spec fn layers(fs: Seq<(Seq<char>, Seq<Seq<char>>, Seq<Seq<char>>)>, hi: int, k: nat) -> Seq<(Seq<char>, Seq<Seq<char>>, Seq<Seq<char>>)>
    decreases k,
{
    if k == 0 { Seq::empty() } else { layers(fs, hi, (k - 1) as nat) + of_length(fs, hi - (k - 1)) }
}

/// The length of the longest spelling found.
pub open spec fn longest(fs: Seq<(Seq<char>, Seq<Seq<char>>, Seq<Seq<char>>)>) -> int
    decreases fs.len(),
{
    if fs.len() == 0 {
        0
    } else {
        let m = longest(fs.drop_last());
        if fs.last().0.len() > m { fs.last().0.len() as int } else { m }
    }
}

/// Found spellings longest first, keeping their order within a length.
pub open spec fn longest_first_spec(fs: Seq<(Seq<char>, Seq<Seq<char>>, Seq<Seq<char>>)>) -> Seq<(Seq<char>, Seq<Seq<char>>, Seq<Seq<char>>)> {
    layers(fs, longest(fs), (longest(fs) + 1) as nat)
}

proof fn lemma_longest_nonneg(fs: Seq<(Seq<char>, Seq<Seq<char>>, Seq<Seq<char>>)>)
    ensures
        longest(fs) >= 0,
    decreases fs.len(),
{
    if fs.len() > 0 {
        lemma_longest_nonneg(fs.drop_last());
    }
}

fn copy_found(f: &Found) -> (r: Found)
    ensures
        found_view(r) == found_view(*f),
{
    Found {
        term: f.term.clone(),
        readings: crate::tables::copy_strings(&f.readings),
        dictionaries: crate::tables::copy_strings(&f.dictionaries),
    }
}

fn append_of_length(out: &mut Vec<Found>, found: &Vec<Found>, lens: &Vec<usize>, n: usize)
    requires
        lens.len() == found.len(),
        forall|i: int| 0 <= i < found.len() ==> lens@[i] == (#[trigger] found@[i]).term@.len(),
    ensures
        found_views(final(out)@) == found_views(old(out)@) + of_length(found_views(found@), n as int),
{
    let ghost start = found_views(out@);
    for i in 0..found.len()
        invariant
            lens.len() == found.len(),
            forall|i: int| 0 <= i < found.len() ==> lens@[i] == (#[trigger] found@[i]).term@.len(),
            found_views(out@) == start + of_length(found_views(found@.take(i as int)), n as int),
    {
        proof {
            let pre = found@.take(i as int + 1);
            assert(found_views(pre).drop_last() =~= found_views(found@.take(i as int)));
            assert(found_views(pre).last() == found_view(found@[i as int]));
        }
        if lens[i] == n {
            let ghost before = out@;
            out.push(copy_found(&found[i]));
            proof {
                assert(found_views(out@) =~= found_views(before).push(found_view(found@[i as int])));
            }
        }
    }
    proof { assert(found@.take(found@.len() as int) =~= found@); }
}

/// The found spellings longest first, so the popup offers the compound before
/// its halves; within a length they keep the order they were found in.
pub fn longest_first(found: &Vec<Found>) -> (r: Vec<Found>)
    ensures
        found_views(r@) == longest_first_spec(found_views(found@)),
{
    let ghost fs = found_views(found@);
    let mut lens: Vec<usize> = Vec::new();
    let mut max: usize = 0;
    for i in 0..found.len()
        invariant
            lens.len() == i,
            forall|j: int| 0 <= j < i ==> lens@[j] == (#[trigger] found@[j]).term@.len(),
            max == longest(found_views(found@.take(i as int))),
    {
        let n = crate::strings::char_len(found[i].term.as_str());
        proof {
            let pre = found@.take(i as int + 1);
            assert(found_views(pre).drop_last() =~= found_views(found@.take(i as int)));
            assert(found_views(pre).last() == found_view(found@[i as int]));
        }
        lens.push(n);
        if n > max {
            max = n;
        }
    }
    proof {
        assert(found@.take(found@.len() as int) =~= found@);
        lemma_longest_nonneg(fs);
    }
    let mut out: Vec<Found> = Vec::new();
    for c in 0..max
        invariant
            max == longest(fs),
            fs == found_views(found@),
            lens.len() == found.len(),
            forall|j: int| 0 <= j < found.len() ==> lens@[j] == (#[trigger] found@[j]).term@.len(),
            found_views(out@) == layers(fs, max as int, c as nat),
    {
        append_of_length(&mut out, found, &lens, max - c);
    }
    append_of_length(&mut out, found, &lens, 0);
    out
}

/// The ledger key of the `i`th spelling: the one the tokenizer resolved it to,
/// or the spelling itself when there is none.
pub open spec fn key_at(found: Seq<Found>, keys: Seq<String>, i: int) -> Seq<char> {
    if i < keys.len() { keys[i]@ } else { found[i].term@ }
}

/// The readings a spelling is offered under: one entry per reading, and a
/// kana headword — which lists none — reads as itself.
pub open spec fn readings_offered(f: Found) -> Seq<Seq<char>> {
    if f.readings.len() == 0 { seq![Seq::<char>::empty()] } else { f.readings.deep_view() }
}

/// One candidate: the dictionary's spelling, its ledger key, a reading and
/// the dictionaries listing it.
pub open spec fn offer_of(f: Found, key: Seq<char>) -> spec_fn(Seq<char>) -> (Seq<char>, Seq<char>, Seq<char>, Seq<Seq<char>>) {
    |r: Seq<char>| (f.term@, key, r, f.dictionaries.deep_view())
}

/// The candidates of the first `n` spellings, one per reading.
pub open spec fn offers(found: Seq<Found>, keys: Seq<String>, n: int) -> Seq<(Seq<char>, Seq<char>, Seq<char>, Seq<Seq<char>>)>
    decreases n,
{
    if n <= 0 {
        Seq::empty()
    } else {
        offers(found, keys, n - 1) + readings_offered(found[n - 1]).map_values(offer_of(found[n - 1], key_at(found, keys, n - 1)))
    }
}

pub open spec fn offer_view(o: (String, String, String, Vec<String>)) -> (Seq<char>, Seq<char>, Seq<char>, Seq<Seq<char>>) {
    (o.0@, o.1@, o.2@, o.3.deep_view())
}

pub open spec fn offer_views(v: Seq<(String, String, String, Vec<String>)>) -> Seq<(Seq<char>, Seq<char>, Seq<char>, Seq<Seq<char>>)> {
    v.map_values(|o: (String, String, String, Vec<String>)| offer_view(o))
}

fn offers_exec(found: &Vec<Found>, keys: &Vec<String>) -> (r: Vec<(String, String, String, Vec<String>)>)
    ensures
        offer_views(r@) == offers(found@, keys@, found@.len() as int),
{
    let mut out: Vec<(String, String, String, Vec<String>)> = Vec::new();
    for i in 0..found.len()
        invariant
            offer_views(out@) == offers(found@, keys@, i as int),
    {
        let f = &found[i];
        let key = if i < keys.len() { keys[i].clone() } else { f.term.clone() };
        let ghost start = offer_views(out@);
        let ghost rs = readings_offered(found@[i as int]);
        let ghost mk = offer_of(found@[i as int], key_at(found@, keys@, i as int));
        if f.readings.len() == 0 {
            let ghost before = out@;
            out.push((f.term.clone(), key, String::new(), crate::tables::copy_strings(&f.dictionaries)));
            proof {
                assert(offer_views(out@) =~= offer_views(before).push(mk(Seq::<char>::empty())));
                assert(rs.map_values(mk) =~= seq![mk(Seq::<char>::empty())]);
            }
        } else {
            for j in 0..f.readings.len()
                invariant
                    f == &found@[i as int],
                    rs == f.readings.deep_view(),
                    key@ == key_at(found@, keys@, i as int),
                    mk == offer_of(found@[i as int], key_at(found@, keys@, i as int)),
                    offer_views(out@) == start + rs.take(j as int).map_values(mk),
            {
                let ghost before = out@;
                out.push((f.term.clone(), key.clone(), f.readings[j].clone(), crate::tables::copy_strings(&f.dictionaries)));
                proof {
                    assert(offer_views(out@) =~= offer_views(before).push(mk(rs[j as int])));
                    assert(rs.take(j as int + 1).map_values(mk) =~= rs.take(j as int).map_values(mk).push(mk(rs[j as int])));
                }
            }
            proof { assert(rs.take(rs.len() as int) =~= rs); }
        }
    }
    out
}

/// The ledger terms of the candidates, in the same order, to fetch their rows.
pub fn expansion_terms(found: &Vec<Found>, keys: &Vec<String>) -> (r: Vec<Term>)
    ensures
        r.len() == offers(found@, keys@, found@.len() as int).len(),
        forall|i: int| 0 <= i < r.len() ==> {
            let o = #[trigger] offers(found@, keys@, found@.len() as int)[i];
            (r@[i].headword@, r@[i].reading@) == term_key(o.1, o.2)
        },
{
    let os = offers_exec(found, keys);
    let mut out: Vec<Term> = Vec::new();
    for i in 0..os.len()
        invariant
            out.len() == i,
            forall|k: int| 0 <= k < i ==> {
                let o = #[trigger] offer_views(os@)[k];
                (out@[k].headword@, out@[k].reading@) == term_key(o.1, o.2)
            },
    {
        let t = Term::from_parts(os[i].1.clone(), os[i].2.as_str());
        proof { assert(offer_views(os@)[i as int] == offer_view(os@[i as int])); }
        out.push(t);
    }
    out
}

/// Every other reading of a clicked position, as the popup offers them.
pub struct Expansion {
    /// The dictionary's spelling, which the line may have conjugated.
    pub term: String,
    /// The ledger key this spelling resolves to — what judging or mining the
    /// candidate writes.
    pub key: String,
    /// One entry per reading, since 素振り is そぶり or すぶり and they are
    /// different words. Empty for a kana headword.
    pub reading: String,
    /// What the ledger already says about `(key, reading)`, so re-opening a
    /// candidate shows the judgement made on it last time.
    pub status: String,
    pub dictionaries: Vec<String>,
}

/// The status a ledger row gives, `new` where there is none.
pub open spec fn status_name(row: Option<VocabRow>) -> Seq<char> {
    match row {
        Some(r) => r.status.name(),
        None => Status::New.name(),
    }
}

/// The candidates of a position with what the ledger says of each, given the
/// rows fetched for [`expansion_terms`].
pub fn expansions(found: &Vec<Found>, keys: &Vec<String>, rows: &Vec<VocabRow>) -> (r: Vec<Expansion>)
    ensures
        r.len() == offers(found@, keys@, found@.len() as int).len(),
        forall|i: int| 0 <= i < r.len() ==> {
            let o = #[trigger] offers(found@, keys@, found@.len() as int)[i];
            &&& (r@[i].term@, r@[i].key@, r@[i].reading@, r@[i].dictionaries.deep_view()) == o
            &&& r@[i].status@ == status_name(row_for(rows@, term_key(o.1, o.2)))
        },
{
    let os = offers_exec(found, keys);
    let mut out: Vec<Expansion> = Vec::new();
    for i in 0..os.len()
        invariant
            out.len() == i,
            forall|k: int| 0 <= k < i ==> {
                let o = #[trigger] offer_views(os@)[k];
                &&& (out@[k].term@, out@[k].key@, out@[k].reading@, out@[k].dictionaries.deep_view()) == o
                &&& out@[k].status@ == status_name(row_for(rows@, term_key(o.1, o.2)))
            },
    {
        let t = Term::from_parts(os[i].1.clone(), os[i].2.as_str());
        proof { assert(offer_views(os@)[i as int] == offer_view(os@[i as int])); }
        let status = match find_row(rows, &t) {
            Some(row) => row.status.as_str(),
            None => Status::New.as_str(),
        };
        out.push(Expansion {
            term: os[i].0.clone(),
            key: os[i].1.clone(),
            reading: os[i].2.clone(),
            status: status.to_owned(),
            dictionaries: crate::tables::copy_strings(&os[i].3),
        });
    }
    out
}

} // verus!
