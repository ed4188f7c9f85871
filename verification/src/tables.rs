//! Lookup tables keyed by strings: a set of string pairs, a table of ranks
//! keyed by a pair, and groups of strings filed under a key. Each is a hash
//! map from the first key to a short list, so a lookup costs one hash and a
//! scan of the few entries that share it.
use vstd::prelude::*;
use vstd::hash_map::StringHashMap;
use vstd::hash_set::StringHashSet;

verus! {

/// Whether a list of strings holds this one.
pub fn holds(v: &Vec<String>, s: &str) -> (r: bool)
    ensures
        r == v.deep_view().contains(s@),
{
    let mut i: usize = 0;
    while i < v.len()
        invariant
            i <= v.len(),
            forall|j: int| 0 <= j < i ==> v.deep_view()[j] != s@,
        decreases v.len() - i,
    {
        if crate::strings::same(v[i].as_str(), s) {
            proof { assert(v.deep_view()[i as int] == s@); }
            return true;
        }
        i = i + 1;
    }
    proof {
        if v.deep_view().contains(s@) {
            let j = choose|j: int| 0 <= j < v.deep_view().len() && v.deep_view()[j] == s@;
            assert(v.deep_view()[j] != s@);
        }
    }
    false
}

/// A copy of a list of strings.
pub fn copy_strings(v: &Vec<String>) -> (r: Vec<String>)
    ensures
        r.deep_view() == v.deep_view(),
{
    let mut out: Vec<String> = Vec::new();
    for i in 0..v.len()
        invariant
            out.deep_view() == v.deep_view().take(i as int),
    {
        let s = v[i].clone();
        assert(s@ == v.deep_view()[i as int]);
        let ghost before = out.deep_view();
        out.push(s);
        proof {
            assert(out.deep_view() =~= before.push(v.deep_view()[i as int]));
            assert(v.deep_view().take(i as int + 1) =~= v.deep_view().take(i as int).push(v.deep_view()[i as int]));
        }
    }
    proof { assert(v.deep_view().take(v.len() as int) =~= v.deep_view()); }
    out
}

/// A hash set holding exactly the strings of a list.
pub fn string_set(v: &Vec<String>) -> (r: StringHashSet)
    ensures
        forall|s: Seq<char>| #[trigger] r@.contains(s) == v.deep_view().contains(s),
        r@.is_empty() == (v.len() == 0),
{
    let mut set = StringHashSet::new();
    for i in 0..v.len()
        invariant
            forall|s: Seq<char>| #[trigger] set@.contains(s) == v.deep_view().take(i as int).contains(s),
    {
        let s = v[i].clone();
        let ghost sv = s@;
        assert(sv == v.deep_view()[i as int]);
        let ghost before = set@;
        set.insert(s);
        proof {
            let next = v.deep_view().take(i as int + 1);
            let prev = v.deep_view().take(i as int);
            assert(next =~= prev.push(sv));
            assert forall|x: Seq<char>| #[trigger] set@.contains(x) == next.contains(x) by {
                if x == sv {
                    assert(next[i as int] == x);
                } else if next.contains(x) {
                    let k = choose|k: int| 0 <= k < next.len() && next[k] == x;
                    assert(prev[k] == x);
                } else if prev.contains(x) {
                    let k = choose|k: int| 0 <= k < prev.len() && prev[k] == x;
                    assert(next[k] == x);
                }
            }
        }
    }
    proof {
        assert(v.deep_view().take(v.len() as int) =~= v.deep_view());
        if v.len() > 0 {
            assert(v.deep_view().contains(v.deep_view()[0]));
            assert(set@.contains(v.deep_view()[0]));
            assert(!Set::<Seq<char>>::empty().contains(v.deep_view()[0]));
        } else {
            assert(set@ =~= Set::<Seq<char>>::empty());
        }
    }
    set
}

/// Add `s` to a list of distinct strings, unless it is there already; `seen`
/// holds the same strings, for the test.
pub fn add_once(out: &mut Vec<String>, seen: &mut StringHashSet, s: String)
    requires
        old(out).deep_view().no_duplicates(),
        forall|x: Seq<char>| #[trigger] old(seen)@.contains(x) == old(out).deep_view().contains(x),
    ensures
        final(out).deep_view().no_duplicates(),
        forall|x: Seq<char>| #[trigger] final(seen)@.contains(x) == final(out).deep_view().contains(x),
        forall|x: Seq<char>| #[trigger] final(out).deep_view().contains(x) == (old(out).deep_view().contains(x) || x == s@),
        final(out).deep_view() == (if old(out).deep_view().contains(s@) {
            old(out).deep_view()
        } else {
            old(out).deep_view().push(s@)
        }),
{
    if seen.contains(s.as_str()) {
        return;
    }
    let ghost before = out.deep_view();
    let ghost sv = s@;
    seen.insert(s.clone());
    out.push(s);
    proof {
        broadcast use vstd::seq_lib::group_seq_properties;
        assert(out.deep_view() =~= before.push(sv));
        assert forall|a: int, b: int| 0 <= a < out.deep_view().len() && 0 <= b < out.deep_view().len() && a != b
            implies out.deep_view()[a] != out.deep_view()[b] by {
            if a < before.len() && b < before.len() {
            } else if a < before.len() {
                assert(before.contains(out.deep_view()[a]));
            } else {
                assert(before.contains(out.deep_view()[b]));
            }
        }
    }
}

/// Strings filed under string keys, each key's list in the order its strings
/// were first added and without repeats.
pub struct Groups {
    m: StringHashMap<Vec<String>>,
}

impl Groups {
    /// The strings filed under `key`, empty when nothing is.
    pub closed spec fn of(&self, key: Seq<char>) -> Seq<Seq<char>> {
        if self.m@.contains_key(key) { self.m@[key].deep_view() } else { Seq::empty() }
    }

    pub fn new() -> (r: Groups)
        ensures
            forall|k: Seq<char>| r.of(k) == Seq::<Seq<char>>::empty(),
    {
        Groups { m: StringHashMap::new() }
    }

    /// File `value` under `key`, unless it is already there.
    pub fn add(&mut self, key: String, value: String)
        ensures
            forall|k: Seq<char>| k != key@ ==> final(self).of(k) == old(self).of(k),
            final(self).of(key@) == if old(self).of(key@).contains(value@) {
                old(self).of(key@)
            } else {
                old(self).of(key@).push(value@)
            },
    {
        let mut list = match self.m.get(key.as_str()) {
            Some(v) => copy_strings(v),
            None => Vec::new(),
        };
        if holds(&list, value.as_str()) {
            return;
        }
        let ghost before = list.deep_view();
        list.push(value);
        proof { assert(list.deep_view() =~= before.push(value@)); }
        self.m.insert(key, list);
    }

    /// The strings filed under `key`.
    pub fn get(&self, key: &str) -> (r: Option<&Vec<String>>)
        ensures
            match r {
                Some(v) => v.deep_view() == self.of(key@) && v.len() > 0,
                None => self.of(key@) == Seq::<Seq<char>>::empty(),
            },
    {
        match self.m.get(key) {
            Some(v) => if v.len() > 0 { Some(v) } else { None },
            None => None,
        }
    }
}

} // verus!

verus! {

/// The smaller of two ranks where both exist, the one that exists otherwise.
pub open spec fn better(a: Option<i64>, b: i64) -> i64 {
    match a {
        Some(x) => if x <= b { x } else { b },
        None => b,
    }
}

/// The rank a list of `(key, rank)` rows gives a key: the best of its rows.
pub open spec fn best_rank<K>(rows: Seq<(K, i64)>, key: K) -> Option<i64>
    decreases rows.len(),
{
    if rows.len() == 0 {
        None
    } else {
        let before = best_rank(rows.drop_last(), key);
        if rows.last().0 == key { Some(better(before, rows.last().1)) } else { before }
    }
}

/// Ranks keyed by a pair of strings, the best rank kept when a pair is given
/// more than one.
pub struct PairRanks {
    m: StringHashMap<Vec<(String, i64)>>,
}

impl PairRanks {
    /// The rank of `(first, second)`, if it has one.
    pub closed spec fn rank(&self, first: Seq<char>, second: Seq<char>) -> Option<i64> {
        if self.m@.contains_key(first) { best_rank(self.m@[first].deep_view(), second) } else { None }
    }

    pub fn new() -> (r: PairRanks)
        ensures
            forall|a: Seq<char>, b: Seq<char>| r.rank(a, b) is None,
    {
        PairRanks { m: StringHashMap::new() }
    }

    /// Give `(first, second)` this rank, or keep the one it has if that is
    /// better.
    pub fn add(&mut self, first: String, second: String, rank: i64)
        ensures
            final(self).rank(first@, second@) == Some(better(old(self).rank(first@, second@), rank)),
            forall|a: Seq<char>, b: Seq<char>|
                !(a == first@ && b == second@) ==> #[trigger] final(self).rank(a, b) == old(self).rank(a, b),
    {
        let mut list: Vec<(String, i64)> = match self.m.get(first.as_str()) {
            Some(v) => copy_ranks(v),
            None => Vec::new(),
        };
        let ghost before = list.deep_view();
        proof {
            assert(forall|b: Seq<char>| old(self).rank(first@, b) == best_rank(before, b));
        }
        let ghost key = first@;
        let ghost second_view = second@;
        list.push((second, rank));
        let ghost after = list.deep_view();
        proof {
            assert(after =~= before.push((second_view, rank)));
            assert(after.drop_last() =~= before);
            assert(after.last() == (second_view, rank));
        }
        self.m.insert(first, list);
        proof {
            assert(self.m@[key].deep_view() == after);
            assert(forall|b: Seq<char>| #[trigger] best_rank(after, b)
                == if b == second_view { Some(better(best_rank(before, b), rank)) } else { best_rank(before, b) });
        }
    }

    /// The rank of `(first, second)`.
    pub fn get(&self, first: &str, second: &str) -> (r: Option<i64>)
        ensures
            r == self.rank(first@, second@),
    {
        match self.m.get(first) {
            Some(v) => {
                let mut best: Option<i64> = None;
                for i in 0..v.len()
                    invariant
                        best == best_rank(v.deep_view().take(i as int), second@),
                {
                    proof {
                        let t = v.deep_view().take(i as int + 1);
                        assert(t.drop_last() =~= v.deep_view().take(i as int));
                        assert(t.last() == v.deep_view()[i as int]);
                    }
                    if crate::strings::same(v[i].0.as_str(), second) {
                        let r = v[i].1;
                        best = match best {
                            Some(x) => if x <= r { Some(x) } else { Some(r) },
                            None => Some(r),
                        };
                    }
                }
                proof { assert(v.deep_view().take(v.len() as int) =~= v.deep_view()); }
                best
            },
            None => None,
        }
    }
}

/// A copy of a list of `(string, rank)` entries.
pub fn copy_ranks(v: &Vec<(String, i64)>) -> (r: Vec<(String, i64)>)
    ensures
        r.deep_view() == v.deep_view(),
{
    let mut out: Vec<(String, i64)> = Vec::new();
    for i in 0..v.len()
        invariant
            out.deep_view() == v.deep_view().take(i as int),
    {
        let s = v[i].0.clone();
        let e = (s, v[i].1);
        assert(e.deep_view() == v.deep_view()[i as int]);
        let ghost before = out.deep_view();
        out.push(e);
        proof {
            assert(out.deep_view() =~= before.push(v.deep_view()[i as int]));
            assert(v.deep_view().take(i as int + 1) =~= v.deep_view().take(i as int).push(v.deep_view()[i as int]));
        }
    }
    proof { assert(v.deep_view().take(v.len() as int) =~= v.deep_view()); }
    out
}

} // verus!
