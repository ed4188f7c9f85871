//! The cast of a work, imported rather than inferred.
//!
//! The tokenizer's largest known error is the name filter: it can only ask its
//! proper-noun tag, and that has no entry for most of a visual novel's cast.
//! Where it has none the name is *split* — 世凪 arrives as 世 + 凪 and the
//! ledger fills with a word the text never used. A list per work fixes what no
//! rule can, because the cast is knowable before the work is read.
use vstd::prelude::*;
use vstd::hash_set::StringHashSet;
use crate::strings::push_char;
use crate::tables::add_once;
use crate::text::kana::{is_kana_char, kana_char};
use crate::text::kanji::{is_kanji, kanji_char};

verus! {

broadcast use vstd::seq_lib::group_seq_properties;

/// The source a dropped name is filed under: a row rather than a delete,
/// because a refetch rewrites the whole imported source and would put it
/// straight back.
pub const EXCLUDED: &'static str = "excluded";

/// Kana or kanji — what makes a name one a Japanese script would write.
pub open spec fn japanese_char(c: char) -> bool {
    kana_char(c) || kanji_char(c)
}

/// Whether a name has a character a Japanese script would write.
pub open spec fn japanese_name(s: Seq<char>) -> bool {
    exists|i: int| 0 <= i < s.len() && japanese_char(#[trigger] s[i])
}

/// Whether a character separates the parts of a full name.
pub open spec fn name_separator(c: char) -> bool {
    c == '・' || c == '＝'
}

/// A name cut at each separator, empty pieces included.
pub open spec fn split_name(s: Seq<char>) -> Seq<Seq<char>>
    decreases s.len(),
{
    if s.len() == 0 {
        seq![Seq::empty()]
    } else {
        let p = split_name(s.drop_last());
        if name_separator(s.last()) {
            p.push(Seq::empty())
        } else {
            p.update(p.len() - 1, p.last().push(s.last()))
        }
    }
}

/// The pieces longer than one character, in order.
pub open spec fn long_pieces(ps: Seq<Seq<char>>) -> Seq<Seq<char>>
    decreases ps.len(),
{
    if ps.len() == 0 {
        Seq::empty()
    } else {
        let d = long_pieces(ps.drop_last());
        if ps.last().len() > 1 { d.push(ps.last()) } else { d }
    }
}

/// The halves of a full name: its pieces between separators, one character
/// never being a part.
pub open spec fn name_parts(s: Seq<char>) -> Seq<Seq<char>> {
    long_pieces(split_name(s))
}

proof fn lemma_split_nonempty(s: Seq<char>)
    ensures
        split_name(s).len() >= 1,
    decreases s.len(),
{
    if s.len() > 0 {
        lemma_split_nonempty(s.drop_last());
    }
}

/// Kana or kanji.
pub fn is_japanese(c: char) -> (r: bool)
    ensures
        r == japanese_char(c),
{
    is_kana_char(c) || is_kanji(c)
}

/// The halves of a full name, which is what the text mostly uses: a cast list
/// gives ウィリアム・シェイクスピア and the script says シェイクスピア.
///
/// One character is never a part: ピーチ・ザ・ビッチ would otherwise teach
/// the tokenizer that ザ is somebody.
pub fn parts(name: &str) -> (r: Vec<String>)
    ensures
        r.deep_view() == name_parts(name@),
{
    let mut out: Vec<String> = Vec::new();
    let mut cur = String::new();
    let mut cur_len: usize = 0;
    let ghost mut seen: Seq<char> = Seq::empty();
    let total = name.unicode_len();
    proof { lemma_split_nonempty(seen); }
    for c in it: name.chars()
        invariant
            it.seq() == name@,
            total == name@.len(),
            seen == name@.take(it.index() as int),
            split_name(seen).len() >= 1,
            out.deep_view() == long_pieces(split_name(seen).drop_last()),
            cur@ == split_name(seen).last(),
            cur_len == cur@.len(),
            cur_len <= it.index(),
    {
        let ghost next = name@.take(it.index() as int + 1);
        proof {
            assert(next.drop_last() =~= seen);
            assert(next.last() == c);
        }
        if c == '・' || c == '＝' {
            if cur_len > 1 {
                let ghost before = out.deep_view();
                out.push(cur);
                proof { assert(out.deep_view() =~= before.push(split_name(seen).last())); }
            }
            cur = String::new();
            cur_len = 0;
            proof {
                let p = split_name(seen);
                assert(split_name(next) == p.push(Seq::<char>::empty()));
                assert(split_name(next).drop_last() =~= p);
                assert(p =~= p.drop_last().push(p.last()));
            }
        } else {
            push_char(&mut cur, c);
            cur_len = cur_len + 1;
            proof {
                let p = split_name(seen);
                assert(split_name(next) == p.update(p.len() - 1, p.last().push(c)));
                assert(split_name(next).drop_last() =~= p.drop_last());
            }
        }
        proof { seen = next; }
    }
    proof {
        assert(name@.take(name@.len() as int) =~= name@);
        let p = split_name(seen);
        assert(p =~= p.drop_last().push(p.last()));
    }
    if cur_len > 1 {
        let ghost before = out.deep_view();
        out.push(cur);
        proof { assert(out.deep_view() =~= before.push(split_name(name@).last())); }
    }
    out
}

/// Whether the tokenizer's name set holds `x`, given the stored names: every
/// name a Japanese script would write, and each of its parts.
pub open spec fn named_by(names: Seq<Seq<char>>, x: Seq<char>) -> bool {
    exists|i: int| 0 <= i < names.len() && japanese_name(#[trigger] names[i])
        && (x == names[i] || name_parts(names[i]).contains(x))
}

/// Every work's names at once, for the tokenizer, from the names stored.
///
/// A romanized name is not what a Japanese script writes, and aliases are
/// prose as often as names — Master, Savior. Those are never handed to the
/// tokenizer, where they could only collide with English the text contains.
/// The names come out once each.
pub fn names_for_tokenizer(names: &Vec<String>) -> (r: Vec<String>)
    ensures
        r.deep_view().no_duplicates(),
        forall|x: Seq<char>| #[trigger] r.deep_view().contains(x) == named_by(names.deep_view(), x),
{
    let mut out: Vec<String> = Vec::new();
    let mut seen = StringHashSet::new();
    for i in 0..names.len()
        invariant
            out.deep_view().no_duplicates(),
            forall|x: Seq<char>| #[trigger] seen@.contains(x) == out.deep_view().contains(x),
            forall|x: Seq<char>| #[trigger] out.deep_view().contains(x) == named_by(names.deep_view().take(i as int), x),
    {
        let ghost prev = names.deep_view().take(i as int);
        let ghost next = names.deep_view().take(i as int + 1);
        let name = names[i].as_str();
        proof {
            assert(next =~= prev.push(name@));
        }
        let mut japanese = false;
        for c in it: name.chars()
            invariant
                it.seq() == name@,
                japanese == exists|j: int| 0 <= j < it.index() && japanese_char(#[trigger] name@[j]),
        {
            if is_japanese(c) {
                japanese = true;
            }
        }
        if japanese {
            let ps = parts(name);
            let ghost start = out.deep_view();
            for k in 0..ps.len()
                invariant
                    ps.deep_view() == name_parts(name@),
                    out.deep_view().no_duplicates(),
                    forall|x: Seq<char>| #[trigger] seen@.contains(x) == out.deep_view().contains(x),
                    forall|x: Seq<char>| #[trigger] out.deep_view().contains(x)
                        == (start.contains(x) || ps.deep_view().take(k as int).contains(x)),
            {
                proof {
                    assert(ps.deep_view().take(k as int + 1) =~= ps.deep_view().take(k as int).push(ps.deep_view()[k as int]));
                }
                add_once(&mut out, &mut seen, ps[k].clone());
            }
            add_once(&mut out, &mut seen, names[i].clone());
            proof {
                assert(ps.deep_view().take(ps.deep_view().len() as int) =~= ps.deep_view());
                assert forall|x: Seq<char>| #[trigger] out.deep_view().contains(x) == named_by(next, x) by {
                    if named_by(next, x) && !named_by(prev, x) {
                        let j = choose|j: int| 0 <= j < next.len() && japanese_name(#[trigger] next[j])
                            && (x == next[j] || name_parts(next[j]).contains(x));
                        if j < prev.len() {
                            assert(prev[j] == next[j]);
                        }
                    }
                    if named_by(prev, x) {
                        let j = choose|j: int| 0 <= j < prev.len() && japanese_name(#[trigger] prev[j])
                            && (x == prev[j] || name_parts(prev[j]).contains(x));
                        assert(next[j] == prev[j]);
                    }
                    if x == name@ || name_parts(name@).contains(x) {
                        assert(next[i as int] == name@);
                        let w = choose|w: int| 0 <= w < name@.len() && japanese_char(#[trigger] name@[w]);
                        assert(japanese_name(next[i as int]));
                    }
                }
            }
        } else {
            proof {
                assert forall|x: Seq<char>| #[trigger] out.deep_view().contains(x) == named_by(next, x) by {
                    if named_by(next, x) {
                        let j = choose|j: int| 0 <= j < next.len() && japanese_name(#[trigger] next[j])
                            && (x == next[j] || name_parts(next[j]).contains(x));
                        if j == i {
                            assert(next[j] == name@);
                        } else {
                            assert(prev[j] == next[j]);
                        }
                    }
                    if named_by(prev, x) {
                        let j = choose|j: int| 0 <= j < prev.len() && japanese_name(#[trigger] prev[j])
                            && (x == prev[j] || name_parts(prev[j]).contains(x));
                        assert(next[j] == prev[j]);
                    }
                }
            }
        }
    }
    proof { assert(names.deep_view().take(names.len() as int) =~= names.deep_view()); }
    out
}

} // verus!
