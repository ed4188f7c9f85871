//! What each loaded dictionary is for, and which reading to believe for a
//! headword the master dictionary lists several ways.
use vstd::prelude::*;
use vstd::hash_map::StringHashMap;

verus! {

/// Which reading to believe for a headword the master lists several ways.
#[derive(Debug, Clone)]
pub struct PreferredReading {
    pub preferred: String,
    /// Readings that need no correcting, the preferred one included.
    pub acceptable: Vec<String>,
}

impl DeepView for PreferredReading {
    type V = (Seq<char>, Seq<Seq<char>>);

    open spec fn deep_view(&self) -> (Seq<char>, Seq<Seq<char>>) {
        (self.preferred@, self.acceptable.deep_view())
    }
}

} // verus!

verus! {

/// What a dictionary is *for*, which decides which questions it may answer.
#[derive(Debug, Clone, Copy, PartialEq, Eq, Structural)]
pub enum Role {
    /// The one dictionary whose headword count is a meaningful vocabulary
    /// scale. Exactly one row should hold this.
    Master,
    /// Decides segmentation beside the master, never spelling or the count.
    Standard,
    /// A name dictionary: a term in here but not in the master is a name.
    Name,
    /// A frequency list.
    Frequency,
    /// A pitch-accent dictionary.
    Pitch,
    /// Everything else. Counts for the wordhood gate, never toward the
    /// vocabulary total.
    Reference,
}

impl Role {
    pub open spec fn name(self) -> Seq<char> {
        match self {
            Role::Master => "master"@,
            Role::Standard => "standard"@,
            Role::Name => "name"@,
            Role::Frequency => "frequency"@,
            Role::Pitch => "pitch"@,
            Role::Reference => "reference"@,
        }
    }

    pub fn as_str(&self) -> (r: &'static str)
        ensures
            r@ == self.name(),
    {
        match self {
            Role::Master => "master",
            Role::Standard => "standard",
            Role::Name => "name",
            Role::Frequency => "frequency",
            Role::Pitch => "pitch",
            Role::Reference => "reference",
        }
    }

    /// The role a stored name reads back as: anything unknown is `Reference`,
    /// the role that answers the fewest questions.
    pub open spec fn parsed(s: Seq<char>) -> Role {
        if s == "master"@ {
            Role::Master
        } else if s == "standard"@ {
            Role::Standard
        } else if s == "name"@ {
            Role::Name
        } else if s == "frequency"@ {
            Role::Frequency
        } else if s == "pitch"@ {
            Role::Pitch
        } else {
            Role::Reference
        }
    }

    pub fn parse(s: &str) -> (r: Role)
        ensures
            r == Role::parsed(s@),
    {
        if crate::strings::same(s, "master") {
            Role::Master
        } else if crate::strings::same(s, "standard") {
            Role::Standard
        } else if crate::strings::same(s, "name") {
            Role::Name
        } else if crate::strings::same(s, "frequency") {
            Role::Frequency
        } else if crate::strings::same(s, "pitch") {
            Role::Pitch
        } else {
            Role::Reference
        }
    }
}

/// Every role reads back as itself.
pub proof fn role_round_trip(r: Role)
    ensures
        Role::parsed(r.name()) == r,
{
    reveal_strlit("master");
    reveal_strlit("standard");
    reveal_strlit("name");
    reveal_strlit("frequency");
    reveal_strlit("pitch");
    reveal_strlit("reference");
    assert("master"@.len() == 6 && "standard"@.len() == 8 && "name"@.len() == 4);
    assert("frequency"@.len() == 9 && "pitch"@.len() == 5 && "reference"@.len() == 9);
    assert("master"@[0] == 'm' && "name"@[0] == 'n');
    assert("frequency"@[0] == 'f' && "reference"@[0] == 'r');
}

/// A loaded dictionary and what it is for.
#[derive(Debug, Clone)]
pub struct Dictionary {
    pub id: i64,
    pub title: String,
    pub source_path: String,
    pub role: Role,
    /// Who answers first: the popup's page order.
    pub priority: i64,
}

/// What a freshly imported dictionary is for, from what it turned out to
/// contain: definitions make it a reference, a list with no entries but
/// frequencies a frequency list, one with only pitch a pitch dictionary.
pub fn role_for_contents(has_entries: bool, has_frequency: bool, has_pitch: bool) -> (r: Role)
    ensures
        r == if has_entries {
            Role::Reference
        } else if has_frequency {
            Role::Frequency
        } else if has_pitch {
            Role::Pitch
        } else {
            Role::Reference
        },
{
    if has_entries {
        Role::Reference
    } else if has_frequency {
        Role::Frequency
    } else if has_pitch {
        Role::Pitch
    } else {
        Role::Reference
    }
}

/// The last role `changes` give a dictionary id, if any.
pub open spec fn last_change(changes: Seq<(i64, Role)>, id: i64) -> Option<Role>
    decreases changes.len(),
{
    if changes.len() == 0 {
        None
    } else if changes.last().0 == id {
        Some(changes.last().1)
    } else {
        last_change(changes.drop_last(), id)
    }
}

/// The roles of a list of dictionaries once `changes` are written, later
/// changes winning.
pub open spec fn applied(ds: Seq<(i64, Role)>, changes: Seq<(i64, Role)>) -> Seq<(i64, Role)> {
    ds.map_values(|d: (i64, Role)| match last_change(changes, d.0) {
        Some(r) => (d.0, r),
        None => d,
    })
}

/// Each dictionary's id and role.
pub open spec fn roles_of(ds: Seq<Dictionary>) -> Seq<(i64, Role)> {
    ds.map_values(|d: Dictionary| (d.id, d.role))
}

/// The role changes that make `target` the one master: promote it unless it
/// already is, and demote every other master to reference.
pub open spec fn master_changes(ds: Seq<(i64, Role)>, target: i64) -> Seq<(i64, Role)>
    decreases ds.len(),
{
    if ds.len() == 0 {
        Seq::empty()
    } else {
        let rest = master_changes(ds.drop_last(), target);
        let d = ds.last();
        if d.0 == target && d.1 != Role::Master {
            rest.push((d.0, Role::Master))
        } else if d.0 != target && d.1 == Role::Master {
            rest.push((d.0, Role::Reference))
        } else {
            rest
        }
    }
}

proof fn lemma_master_changes(ds: Seq<(i64, Role)>, target: i64, id: i64)
    ensures
        last_change(master_changes(ds, target), id) == if id == target {
            if exists|i: int| 0 <= i < ds.len() && (#[trigger] ds[i]).0 == target && ds[i].1 != Role::Master {
                Some(Role::Master)
            } else {
                None
            }
        } else {
            if exists|i: int| 0 <= i < ds.len() && (#[trigger] ds[i]).0 == id && ds[i].1 == Role::Master {
                Some(Role::Reference)
            } else {
                None
            }
        },
    decreases ds.len(),
{
    if ds.len() > 0 {
        let init = ds.drop_last();
        lemma_master_changes(init, target, id);
        let rest = master_changes(init, target);
        let d = ds.last();
        assert(d == ds[ds.len() - 1]);
        if d.0 == target && d.1 != Role::Master {
            assert(rest.push((d.0, Role::Master)).drop_last() =~= rest);
        } else if d.0 != target && d.1 == Role::Master {
            assert(rest.push((d.0, Role::Reference)).drop_last() =~= rest);
        }
        assert forall|i: int| 0 <= i < init.len() implies #[trigger] init[i] == ds[i] by {}
        if exists|i: int| 0 <= i < init.len() && (#[trigger] init[i]).0 == id && init[i].1 == Role::Master {
            let i = choose|i: int| 0 <= i < init.len() && (#[trigger] init[i]).0 == id && init[i].1 == Role::Master;
            assert(ds[i] == init[i]);
        }
        if exists|i: int| 0 <= i < init.len() && (#[trigger] init[i]).0 == target && init[i].1 != Role::Master {
            let i = choose|i: int| 0 <= i < init.len() && (#[trigger] init[i]).0 == target && init[i].1 != Role::Master;
            assert(ds[i] == init[i]);
        }
        if exists|i: int| 0 <= i < ds.len() && (#[trigger] ds[i]).0 == id && ds[i].1 == Role::Master {
            let i = choose|i: int| 0 <= i < ds.len() && (#[trigger] ds[i]).0 == id && ds[i].1 == Role::Master;
            if i < init.len() {
                assert(init[i] == ds[i]);
            }
        }
        if exists|i: int| 0 <= i < ds.len() && (#[trigger] ds[i]).0 == target && ds[i].1 != Role::Master {
            let i = choose|i: int| 0 <= i < ds.len() && (#[trigger] ds[i]).0 == target && ds[i].1 != Role::Master;
            if i < init.len() {
                assert(init[i] == ds[i]);
            }
        }
    }
}

/// Making a dictionary the master leaves exactly that dictionary master:
/// whatever roles the list held before, once the changes
/// [`master_changes`] describes are written, a dictionary is master exactly
/// when it is the target, and one that was neither the target nor a master
/// keeps its role.
pub proof fn one_master(ds: Seq<(i64, Role)>, target: i64)
    ensures
        forall|i: int| 0 <= i < ds.len() ==>
            ((#[trigger] applied(ds, master_changes(ds, target))[i]).1 == Role::Master <==> ds[i].0 == target),
        forall|i: int| 0 <= i < ds.len() && ds[i].0 != target && ds[i].1 != Role::Master ==>
            (#[trigger] applied(ds, master_changes(ds, target))[i]).1 == ds[i].1
                || applied(ds, master_changes(ds, target))[i].1 == Role::Reference,
{
    assert forall|i: int| 0 <= i < ds.len() implies
        ((#[trigger] applied(ds, master_changes(ds, target))[i]).1 == Role::Master <==> ds[i].0 == target)
        && (ds[i].0 != target && ds[i].1 != Role::Master ==> applied(ds, master_changes(ds, target))[i].1 == ds[i].1
            || applied(ds, master_changes(ds, target))[i].1 == Role::Reference) by {
        lemma_master_changes(ds, target, ds[i].0);
    }
}

/// The changes [`master_changes`] describes.
pub fn master_role_changes(ds: &Vec<Dictionary>, target: i64) -> (r: Vec<(i64, Role)>)
    ensures
        r@ == master_changes(roles_of(ds@), target),
{
    let ghost all = roles_of(ds@);
    let mut out: Vec<(i64, Role)> = Vec::new();
    for i in 0..ds.len()
        invariant
            all == roles_of(ds@),
            out@ == master_changes(all.take(i as int), target),
    {
        proof {
            let pre = all.take(i as int + 1);
            assert(pre.drop_last() =~= all.take(i as int));
            assert(pre.last() == (ds@[i as int].id, ds@[i as int].role));
        }
        let d = &ds[i];
        if d.id == target && d.role != Role::Master {
            out.push((d.id, Role::Master));
        } else if d.id != target && d.role == Role::Master {
            out.push((d.id, Role::Reference));
        }
    }
    proof { assert(all.take(all.len() as int) =~= all); }
    out
}

/// The dictionary a configured master names: the first whose source path
/// ends with the marker or whose title is it.
pub open spec fn names_master(d: Dictionary, marker: Seq<char>) -> bool {
    marker.is_suffix_of(d.source_path@) || d.title@ == marker
}

/// Which dictionary a configured master names, if any is loaded, and the role
/// changes that make it the one master. An empty marker names nothing.
pub fn ensure_master_plan(ds: &Vec<Dictionary>, marker: &str) -> (r: Option<(i64, Vec<(i64, Role)>)>)
    ensures
        marker@.len() == 0 ==> r is None,
        marker@.len() > 0 ==> match r {
            Some((id, changes)) => exists|k: int| 0 <= k < ds@.len() && #[trigger] names_master(ds@[k], marker@)
                && ds@[k].id == id
                && (forall|j: int| 0 <= j < k ==> !names_master(#[trigger] ds@[j], marker@))
                && changes@ == master_changes(roles_of(ds@), id),
            None => forall|k: int| 0 <= k < ds@.len() ==> !names_master(#[trigger] ds@[k], marker@),
        },
{
    if marker.is_empty() {
        return None;
    }
    for k in 0..ds.len()
        invariant
            marker@.len() > 0,
            forall|j: int| 0 <= j < k ==> !names_master(#[trigger] ds@[j], marker@),
    {
        let d = &ds[k];
        if ends_with(d.source_path.as_str(), marker) || crate::strings::same(d.title.as_str(), marker) {
            let changes = master_role_changes(ds, d.id);
            assert(names_master(ds@[k as int], marker@));
            return Some((d.id, changes));
        }
    }
    None
}

/// Whether `s` ends with `suffix`.
pub fn ends_with(s: &str, suffix: &str) -> (r: bool)
    ensures
        r == suffix@.is_suffix_of(s@),
{
    let x = crate::strings::chars_of(s);
    let p = crate::strings::chars_of(suffix);
    if p.len() > x.len() {
        return false;
    }
    let off = x.len() - p.len();
    let mut i: usize = 0;
    while i < p.len()
        invariant
            x@ == s@,
            p@ == suffix@,
            p.len() <= x.len(),
            off == x.len() - p.len(),
            i <= p.len(),
            forall|j: int| 0 <= j < i ==> p@[j] == x@[off + j],
        decreases p.len() - i,
    {
        if p[i] != x[off + i] {
            return false;
        }
        i = i + 1;
    }
    proof { assert(p@ =~= x@.subrange(off as int, x@.len() as int)); }
    true
}

} // verus!

verus! {

/// How much less popular a reading has to be than the best one before it is
/// treated as the wrong reading rather than a rarer one: only a reading the
/// popularity dictionary does not tag at all may be overruled.
pub const POPULARITY_TIER: i64 = 150;

/// One reading of a headword: the reading, its popularity score, and its
/// corpus rank if the corpus has it.
pub type ReadingRow = (Seq<char>, i64, Option<i64>);

pub open spec fn max_score(rs: Seq<ReadingRow>) -> i64
    decreases rs.len(),
{
    if rs.len() == 0 {
        0
    } else if rs.len() == 1 {
        rs[0].1
    } else {
        let m = max_score(rs.drop_last());
        if rs.last().1 > m { rs.last().1 } else { m }
    }
}

/// A reading near enough to the top that it is simply how the word is also
/// read — or one the popularity dictionary tags as odd, which is a tag about
/// the spelling and is left alone.
pub open spec fn acceptable_row(r: ReadingRow, best: i64) -> bool {
    r.1 < 0 || best - r.1 < POPULARITY_TIER
}

pub open spec fn acceptable_readings(rs: Seq<ReadingRow>, best: i64) -> Seq<Seq<char>>
    decreases rs.len(),
{
    if rs.len() == 0 {
        Seq::empty()
    } else {
        let rest = acceptable_readings(rs.drop_last(), best);
        if acceptable_row(rs.last(), best) { rest.push(rs.last().0) } else { rest }
    }
}

/// A rank to sort by: unranked sorts last.
pub open spec fn rank_key(r: Option<i64>) -> i64 {
    match r {
        Some(v) => v,
        None => i64::MAX,
    }
}

/// Among the acceptable rows from `i` on, the first of the lowest rank, given
/// the best so far.
pub open spec fn commonest_from(rs: Seq<ReadingRow>, best: i64, i: int, cur: Option<(Seq<char>, i64)>) -> Option<Seq<char>>
    decreases rs.len() - i,
{
    if i < 0 || i >= rs.len() {
        match cur {
            Some(c) => Some(c.0),
            None => None,
        }
    } else if acceptable_row(rs[i], best) && (match cur { Some(c) => rank_key(rs[i].2) < c.1, None => true }) {
        commonest_from(rs, best, i + 1, Some((rs[i].0, rank_key(rs[i].2))))
    } else {
        commonest_from(rs, best, i + 1, cur)
    }
}

/// Which reading to believe for a headword the master lists several ways:
/// nothing when it has one reading, when none is tagged common, or when every
/// reading is current; otherwise the commonest acceptable reading by corpus
/// rank, with the acceptable ones beside it.
pub open spec fn preference_of(rs: Seq<ReadingRow>) -> Option<(Seq<char>, Seq<Seq<char>>)> {
    if rs.len() < 2 {
        None
    } else {
        let best = max_score(rs);
        let acceptable = acceptable_readings(rs, best);
        if best < POPULARITY_TIER || acceptable.len() == rs.len() {
            None
        } else {
            match commonest_from(rs, best, 0, None) {
                Some(p) => Some((p, acceptable)),
                None => None,
            }
        }
    }
}

pub open spec fn rows_view(rs: Seq<(String, i64, Option<i64>)>) -> Seq<ReadingRow> {
    rs.map_values(|r: (String, i64, Option<i64>)| (r.0@, r.1, r.2))
}

proof fn lemma_acceptable_listed(rs: Seq<ReadingRow>, best: i64, j: int)
    requires
        0 <= j < rs.len(),
        acceptable_row(rs[j], best),
    ensures
        acceptable_readings(rs, best).contains(rs[j].0),
    decreases rs.len(),
{
    let rest = acceptable_readings(rs.drop_last(), best);
    if j == rs.len() - 1 {
        assert(rest.push(rs.last().0)[rest.len() as int] == rs[j].0);
    } else {
        lemma_acceptable_listed(rs.drop_last(), best, j);
        let k = choose|k: int| 0 <= k < rest.len() && rest[k] == rs[j].0;
        if acceptable_row(rs.last(), best) {
            assert(rest.push(rs.last().0)[k] == rs[j].0);
        }
    }
}

proof fn lemma_commonest_acceptable(rs: Seq<ReadingRow>, best: i64, i: int, cur: Option<(Seq<char>, i64)>)
    requires
        0 <= i,
        cur matches Some(c) ==> acceptable_readings(rs, best).contains(c.0),
    ensures
        commonest_from(rs, best, i, cur) matches Some(p) ==> acceptable_readings(rs, best).contains(p),
    decreases rs.len() - i,
{
    if i < rs.len() {
        if acceptable_row(rs[i], best) && (match cur { Some(c) => rank_key(rs[i].2) < c.1, None => true }) {
            lemma_acceptable_listed(rs, best, i);
            lemma_commonest_acceptable(rs, best, i + 1, Some((rs[i].0, rank_key(rs[i].2))));
        } else {
            lemma_commonest_acceptable(rs, best, i + 1, cur);
        }
    }
}

/// A preferred reading is one of the readings that need no correcting: the
/// tokenizer never overrules a reading into one it would itself overrule.
pub proof fn preferred_is_acceptable(rs: Seq<ReadingRow>)
    ensures
        preference_of(rs) matches Some(x) ==> x.1.contains(x.0),
{
    if rs.len() >= 2 {
        lemma_commonest_acceptable(rs, max_score(rs), 0, None);
    }
}

/// The reading to prefer for one headword, from its readings' scores and
/// ranks — see [`preference_of`].
pub fn decide_preference(readings: &Vec<(String, i64, Option<i64>)>) -> (r: Option<PreferredReading>)
    ensures
        match r {
            Some(p) => preference_of(rows_view(readings@)) == Some(p.deep_view()),
            None => preference_of(rows_view(readings@)) is None,
        },
{
    let ghost rs = rows_view(readings@);
    let n = readings.len();
    if n < 2 {
        return None;
    }
    let mut best = readings[0].1;
    for i in 1..n
        invariant
            rs == rows_view(readings@),
            n == readings.len(),
            n >= 2,
            best == max_score(rs.take(i as int)),
    {
        proof {
            let pre = rs.take(i as int + 1);
            assert(pre.drop_last() =~= rs.take(i as int));
            assert(pre.last() == rs[i as int]);
        }
        if readings[i].1 > best {
            best = readings[i].1;
        }
    }
    proof { assert(rs.take(n as int) =~= rs); assert(rs.take(1).len() == 1); }
    if best < POPULARITY_TIER {
        return None;
    }
    let mut acceptable: Vec<String> = Vec::new();
    for i in 0..n
        invariant
            rs == rows_view(readings@),
            n == readings.len(),
            best == max_score(rs),
            acceptable.deep_view() == acceptable_readings(rs.take(i as int), best),
    {
        proof {
            let pre = rs.take(i as int + 1);
            assert(pre.drop_last() =~= rs.take(i as int));
            assert(pre.last() == rs[i as int]);
        }
        let s = readings[i].1;
        if s < 0 || (best as i128) - (s as i128) < (POPULARITY_TIER as i128) {
            let ghost before = acceptable.deep_view();
            acceptable.push(readings[i].0.clone());
            proof { assert(acceptable.deep_view() =~= before.push(rs[i as int].0)); }
        }
    }
    proof {
        assert(rs.take(n as int) =~= rs);
        lemma_acceptable_len(rs, best);
    }
    if acceptable.len() == n {
        return None;
    }
    let mut pick: Option<(usize, i64)> = None;
    for i in 0..n
        invariant
            rs == rows_view(readings@),
            n == readings.len(),
            best == max_score(rs),
            pick matches Some(p) ==> p.0 < i,
            commonest_from(rs, best, 0, None) == commonest_from(rs, best, i as int, match pick {
                Some(p) => Some((rs[p.0 as int].0, p.1)),
                None => None,
            }),
    {
        let s = readings[i].1;
        if s < 0 || (best as i128) - (s as i128) < (POPULARITY_TIER as i128) {
            let key = match readings[i].2 {
                Some(v) => v,
                None => i64::MAX,
            };
            let lower = match pick {
                Some(p) => key < p.1,
                None => true,
            };
            if lower {
                pick = Some((i, key));
            }
        }
    }
    match pick {
        Some(p) => Some(PreferredReading { preferred: readings[p.0].0.clone(), acceptable }),
        None => None,
    }
}

proof fn lemma_acceptable_len(rs: Seq<ReadingRow>, best: i64)
    ensures
        acceptable_readings(rs, best).len() <= rs.len(),
    decreases rs.len(),
{
    if rs.len() > 0 {
        lemma_acceptable_len(rs.drop_last(), best);
    }
}

} // verus!

verus! {

/// The rows of one headword, in order.
pub open spec fn group_of(rows: Seq<(Seq<char>, ReadingRow)>, t: Seq<char>) -> Seq<ReadingRow>
    decreases rows.len(),
{
    if rows.len() == 0 {
        Seq::empty()
    } else {
        let rest = group_of(rows.drop_last(), t);
        if rows.last().0 == t { rest.push(rows.last().1) } else { rest }
    }
}

pub open spec fn entry_rows_view(rows: Seq<(String, String, i64, Option<i64>)>) -> Seq<(Seq<char>, ReadingRow)> {
    rows.map_values(|r: (String, String, i64, Option<i64>)| (r.0@, (r.1@, r.2, r.3)))
}

fn copy_rows(v: &Vec<(String, i64, Option<i64>)>) -> (r: Vec<(String, i64, Option<i64>)>)
    ensures
        rows_view(r@) == rows_view(v@),
{
    let mut out: Vec<(String, i64, Option<i64>)> = Vec::new();
    for i in 0..v.len()
        invariant
            rows_view(out@) == rows_view(v@.take(i as int)),
    {
        let ghost before = rows_view(out@);
        let s = v[i].0.clone();
        let ghost x = (s@, v@[i as int].1, v@[i as int].2);
        out.push((s, v[i].1, v[i].2));
        proof {
            assert(rows_view(out@) =~= before.push(x));
            assert(v@.take(i as int + 1) =~= v@.take(i as int).push(v@[i as int]));
            assert(rows_view(v@.take(i as int + 1)) =~= rows_view(v@.take(i as int)).push(x));
        }
    }
    proof { assert(v@.take(v@.len() as int) =~= v@); }
    out
}

/// The headwords of a list of rows, each once, in the order they first appear.
pub open spec fn distinct_terms(rows: Seq<(Seq<char>, ReadingRow)>) -> Seq<Seq<char>>
    decreases rows.len(),
{
    if rows.len() == 0 {
        Seq::empty()
    } else {
        let d = distinct_terms(rows.drop_last());
        if d.contains(rows.last().0) { d } else { d.push(rows.last().0) }
    }
}

/// The preferences of the headwords in `terms`, in that order, skipping those
/// with nothing to prefer.
pub open spec fn preferences_over(terms: Seq<Seq<char>>, rows: Seq<(Seq<char>, ReadingRow)>) -> Seq<(Seq<char>, (Seq<char>, Seq<Seq<char>>))>
    decreases terms.len(),
{
    if terms.len() == 0 {
        Seq::empty()
    } else {
        let rest = preferences_over(terms.drop_last(), rows);
        match preference_of(group_of(rows, terms.last())) {
            Some(p) => rest.push((terms.last(), p)),
            None => rest,
        }
    }
}

proof fn lemma_unseen_term_has_no_rows(rows: Seq<(Seq<char>, ReadingRow)>, t: Seq<char>)
    requires
        !distinct_terms(rows).contains(t),
    ensures
        group_of(rows, t) == Seq::<ReadingRow>::empty(),
    decreases rows.len(),
{
    if rows.len() > 0 {
        let d = distinct_terms(rows.drop_last());
        if d.contains(rows.last().0) {
            assert(rows.last().0 != t);
        } else {
            assert(d.push(rows.last().0)[d.len() as int] == rows.last().0);
            assert(rows.last().0 != t);
            assert forall|x: Seq<char>| d.contains(x) implies d.push(rows.last().0).contains(x) by {
                let k = choose|k: int| 0 <= k < d.len() && d[k] == x;
                assert(d.push(rows.last().0)[k] == x);
            }
        }
        lemma_unseen_term_has_no_rows(rows.drop_last(), t);
    }
}

/// Which reading to believe, per headword the master lists several ways, from
/// one row per `(headword, reading)`: its popularity score and its corpus rank.
/// Headwords come out in the order they first appear, each decided on all of
/// its rows; those with nothing to prefer are absent.
pub fn preferred_readings(rows: &Vec<(String, String, i64, Option<i64>)>) -> (r: Vec<(String, PreferredReading)>)
    ensures
        r.deep_view() == preferences_over(distinct_terms(entry_rows_view(rows@)), entry_rows_view(rows@)),
{
    let ghost es = entry_rows_view(rows@);
    let mut groups: StringHashMap<Vec<(String, i64, Option<i64>)>> = StringHashMap::new();
    let mut order: Vec<String> = Vec::new();
    proof { assert(es.take(0) =~= Seq::<(Seq<char>, ReadingRow)>::empty()); }
    for i in 0..rows.len()
        invariant
            es == entry_rows_view(rows@),
            order.deep_view() == distinct_terms(es.take(i as int)),
            forall|t: Seq<char>| #[trigger] groups@.contains_key(t) == order.deep_view().contains(t),
            forall|t: Seq<char>| #[trigger] groups@.contains_key(t) ==> rows_view(groups@[t]@) == group_of(es.take(i as int), t),
    {
        let ghost pre = es.take(i as int + 1);
        let ghost old_es = es.take(i as int);
        proof {
            assert(pre.drop_last() =~= old_es);
            assert(pre.last() == es[i as int]);
            assert(es[i as int] == (rows@[i as int].0@, (rows@[i as int].1@, rows@[i as int].2, rows@[i as int].3)));
        }
        let term = rows[i].0.as_str();
        let row = (rows[i].1.clone(), rows[i].2, rows[i].3);
        let ghost key = term@;
        let ghost rowv = (row.0@, row.1, row.2);
        let ghost before = groups@;
        let ghost order_before = order.deep_view();
        match groups.get(term) {
            Some(v) => {
                let mut list = copy_rows(v);
                let ghost lv = rows_view(list@);
                list.push(row);
                proof { assert(rows_view(list@) =~= lv.push(rowv)); }
                groups.insert(rows[i].0.clone(), list);
                proof {
                    assert(order_before.contains(key));
                    assert forall|t: Seq<char>| #[trigger] groups@.contains_key(t) implies rows_view(groups@[t]@) == group_of(pre, t) by {
                        if t != key {
                            assert(before.contains_key(t));
                        }
                    }
                }
            },
            None => {
                let mut list: Vec<(String, i64, Option<i64>)> = Vec::new();
                list.push(row);
                proof { assert(rows_view(list@) =~= Seq::<ReadingRow>::empty().push(rowv)); }
                groups.insert(rows[i].0.clone(), list);
                order.push(rows[i].0.clone());
                proof {
                    assert(!order_before.contains(key));
                    lemma_unseen_term_has_no_rows(old_es, key);
                    assert(order.deep_view() =~= order_before.push(key));
                    assert forall|t: Seq<char>| #[trigger] groups@.contains_key(t) == order.deep_view().contains(t) by {
                        if t != key {
                            if order.deep_view().contains(t) {
                                let k = choose|k: int| 0 <= k < order.deep_view().len() && order.deep_view()[k] == t;
                                assert(order_before[k] == t);
                            }
                            if order_before.contains(t) {
                                let k = choose|k: int| 0 <= k < order_before.len() && order_before[k] == t;
                                assert(order.deep_view()[k] == t);
                            }
                        } else {
                            assert(order.deep_view()[order_before.len() as int] == key);
                        }
                    }
                    assert forall|t: Seq<char>| #[trigger] groups@.contains_key(t) implies rows_view(groups@[t]@) == group_of(pre, t) by {
                        if t != key {
                            assert(before.contains_key(t));
                        }
                    }
                }
            },
        }
    }
    proof { assert(es.take(rows@.len() as int) =~= es); }

    let ghost terms = order.deep_view();
    let mut out: Vec<(String, PreferredReading)> = Vec::new();
    for j in 0..order.len()
        invariant
            es == entry_rows_view(rows@),
            terms == order.deep_view(),
            terms == distinct_terms(es),
            forall|t: Seq<char>| #[trigger] groups@.contains_key(t) == terms.contains(t),
            forall|t: Seq<char>| #[trigger] groups@.contains_key(t) ==> rows_view(groups@[t]@) == group_of(es, t),
            out.deep_view() == preferences_over(terms.take(j as int), es),
    {
        let t = order[j].as_str();
        proof {
            let pre = terms.take(j as int + 1);
            assert(pre.drop_last() =~= terms.take(j as int));
            assert(pre.last() == terms[j as int]);
            assert(terms[j as int] == t@);
            assert(terms.contains(t@));
        }
        match groups.get(t) {
            Some(v) => {
                match decide_preference(v) {
                    Some(p) => {
                        let ghost before = out.deep_view();
                        let ghost pv = p.deep_view();
                        out.push((order[j].clone(), p));
                        proof { assert(out.deep_view() =~= before.push((t@, pv))); }
                    },
                    None => {},
                }
            },
            None => {},
        }
    }
    proof { assert(terms.take(terms.len() as int) =~= terms); }
    out
}

} // verus!
