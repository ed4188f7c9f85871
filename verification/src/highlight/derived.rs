//! The dictionary-derived collections the tokenizer pipeline is built from,
//! in the flat binary form they are cached in.
//!
//! Each collection is a pure function of the dictionaries, so none of them
//! changes until a dictionary does — but deriving them costs seconds. The
//! cache stores them section by section in a flat little-endian encoding: a
//! `u32` count, then each string as a `u32` byte length and its UTF-8 bytes,
//! and each rank as an `i64`.
//!
//! Decoding is strict: every read is bounds-checked, a count that claims more
//! elements than the rest of the section could hold is refused before anything
//! is reserved for it, and anything left over is a rejection. A damaged cache
//! costs a rebuild, never a panic.
use vstd::prelude::*;
use vstd::bytes::*;
use vstd::utf8::*;
use vstd::string::*;
use vstd::slice::*;
use crate::knowledge::dictionaries::PreferredReading;
use crate::strings::string_from_utf8;

verus! {

broadcast use vstd::seq_lib::group_seq_properties;

// ---------------------------------------------------------------------------
// The format, as functions on byte sequences.
// ---------------------------------------------------------------------------

/// A count or a byte length: four bytes, little-endian.
pub open spec fn enc_count(n: nat) -> Seq<u8> {
    spec_u32_to_le_bytes(n as u32)
}

/// A string: its UTF-8 byte length, then the bytes.
pub open spec fn enc_str(s: Seq<char>) -> Seq<u8> {
    enc_count(encode_utf8(s).len()) + encode_utf8(s)
}

/// A rank: eight bytes, little-endian two's complement.
pub open spec fn enc_int(v: i64) -> Seq<u8> {
    spec_u64_to_le_bytes(v as u64)
}

/// The elements of a list, each by `f`, one after another.
pub open spec fn enc_items<T>(xs: Seq<T>, f: spec_fn(T) -> Seq<u8>) -> Seq<u8>
    decreases xs.len(),
{
    if xs.len() == 0 {
        Seq::empty()
    } else {
        f(xs[0]) + enc_items(xs.drop_first(), f)
    }
}

/// A list: its element count, then the elements.
pub open spec fn enc_list<T>(xs: Seq<T>, f: spec_fn(T) -> Seq<u8>) -> Seq<u8> {
    enc_count(xs.len()) + enc_items(xs, f)
}

pub open spec fn enc_pair(p: (Seq<char>, Seq<char>)) -> Seq<u8> {
    enc_str(p.0) + enc_str(p.1)
}

pub open spec fn enc_rank(p: (Seq<char>, i64)) -> Seq<u8> {
    enc_str(p.0) + enc_int(p.1)
}

pub open spec fn enc_ambiguous(p: ((Seq<char>, Seq<char>), i64)) -> Seq<u8> {
    enc_str(p.0.0) + enc_str(p.0.1) + enc_int(p.1)
}

pub open spec fn enc_preference(p: (Seq<char>, (Seq<char>, Seq<Seq<char>>))) -> Seq<u8> {
    enc_str(p.0) + enc_str(p.1.0) + enc_set(p.1.1)
}

pub open spec fn str_item() -> spec_fn(Seq<char>) -> Seq<u8> {
    |s: Seq<char>| enc_str(s)
}

pub open spec fn pair_item() -> spec_fn((Seq<char>, Seq<char>)) -> Seq<u8> {
    |p: (Seq<char>, Seq<char>)| enc_pair(p)
}

pub open spec fn rank_item() -> spec_fn((Seq<char>, i64)) -> Seq<u8> {
    |p: (Seq<char>, i64)| enc_rank(p)
}

pub open spec fn ambiguous_item() -> spec_fn(((Seq<char>, Seq<char>), i64)) -> Seq<u8> {
    |p: ((Seq<char>, Seq<char>), i64)| enc_ambiguous(p)
}

pub open spec fn preference_item() -> spec_fn((Seq<char>, (Seq<char>, Seq<Seq<char>>))) -> Seq<u8> {
    |p: (Seq<char>, (Seq<char>, Seq<Seq<char>>))| enc_preference(p)
}

/// A set of strings.
pub open spec fn enc_set(ss: Seq<Seq<char>>) -> Seq<u8> {
    enc_list(ss, str_item())
}

/// A list of `(term, reading)` pairs.
pub open spec fn enc_pairs(ps: Seq<(Seq<char>, Seq<char>)>) -> Seq<u8> {
    enc_list(ps, pair_item())
}

/// A rank per spelling.
pub open spec fn enc_ranks(rs: Seq<(Seq<char>, i64)>) -> Seq<u8> {
    enc_list(rs, rank_item())
}

/// What a decoder read, and what it left.
pub type Parsed<T> = Option<(T, Seq<u8>)>;

pub open spec fn dec_count(b: Seq<u8>) -> Parsed<nat> {
    if b.len() >= 4 {
        Some((spec_u32_from_le_bytes(b.take(4)) as nat, b.skip(4)))
    } else {
        None
    }
}

/// A count that the rest of the section could hold, given that one element
/// takes at least `least` bytes.
pub open spec fn dec_bounded_count(b: Seq<u8>, least: nat) -> Parsed<nat> {
    match dec_count(b) {
        Some((n, rest)) => if n <= rest.len() / least { Some((n, rest)) } else { None },
        None => None,
    }
}

pub open spec fn dec_str(b: Seq<u8>) -> Parsed<Seq<char>> {
    match dec_count(b) {
        Some((n, rest)) => if n <= rest.len() && valid_utf8(rest.take(n as int)) {
            Some((decode_utf8(rest.take(n as int)), rest.skip(n as int)))
        } else {
            None
        },
        None => None,
    }
}

pub open spec fn dec_int(b: Seq<u8>) -> Parsed<i64> {
    if b.len() >= 8 {
        Some((spec_u64_from_le_bytes(b.take(8)) as i64, b.skip(8)))
    } else {
        None
    }
}

/// `n` elements, each by `d`.
pub open spec fn dec_items<T>(b: Seq<u8>, n: nat, d: spec_fn(Seq<u8>) -> Parsed<T>) -> Parsed<Seq<T>>
    decreases n,
{
    if n == 0 {
        Some((Seq::empty(), b))
    } else {
        match d(b) {
            Some((x, rest)) => match dec_items(rest, (n - 1) as nat, d) {
                Some((xs, tail)) => Some((seq![x] + xs, tail)),
                None => None,
            },
            None => None,
        }
    }
}

/// A list whose elements take at least `least` bytes each.
pub open spec fn dec_list<T>(b: Seq<u8>, least: nat, d: spec_fn(Seq<u8>) -> Parsed<T>) -> Parsed<Seq<T>> {
    match dec_bounded_count(b, least) {
        Some((n, rest)) => dec_items(rest, n, d),
        None => None,
    }
}

pub open spec fn dec_pair(b: Seq<u8>) -> Parsed<(Seq<char>, Seq<char>)> {
    match dec_str(b) {
        Some((t, r1)) => match dec_str(r1) {
            Some((r, r2)) => Some(((t, r), r2)),
            None => None,
        },
        None => None,
    }
}

pub open spec fn dec_rank(b: Seq<u8>) -> Parsed<(Seq<char>, i64)> {
    match dec_str(b) {
        Some((t, r1)) => match dec_int(r1) {
            Some((v, r2)) => Some(((t, v), r2)),
            None => None,
        },
        None => None,
    }
}

pub open spec fn dec_ambiguous(b: Seq<u8>) -> Parsed<((Seq<char>, Seq<char>), i64)> {
    match dec_pair(b) {
        Some((p, r1)) => match dec_int(r1) {
            Some((v, r2)) => Some(((p, v), r2)),
            None => None,
        },
        None => None,
    }
}

pub open spec fn str_dec() -> spec_fn(Seq<u8>) -> Parsed<Seq<char>> {
    |x: Seq<u8>| dec_str(x)
}

pub open spec fn pair_dec() -> spec_fn(Seq<u8>) -> Parsed<(Seq<char>, Seq<char>)> {
    |x: Seq<u8>| dec_pair(x)
}

pub open spec fn rank_dec() -> spec_fn(Seq<u8>) -> Parsed<(Seq<char>, i64)> {
    |x: Seq<u8>| dec_rank(x)
}

pub open spec fn dec_set(b: Seq<u8>) -> Parsed<Seq<Seq<char>>> {
    dec_list(b, 4, str_dec())
}

pub open spec fn dec_preference(b: Seq<u8>) -> Parsed<(Seq<char>, (Seq<char>, Seq<Seq<char>>))> {
    match dec_pair(b) {
        Some((p, r1)) => match dec_set(r1) {
            Some((s, r2)) => Some(((p.0, (p.1, s)), r2)),
            None => None,
        },
        None => None,
    }
}

pub open spec fn ambiguous_dec() -> spec_fn(Seq<u8>) -> Parsed<((Seq<char>, Seq<char>), i64)> {
    |x: Seq<u8>| dec_ambiguous(x)
}

pub open spec fn preference_dec() -> spec_fn(Seq<u8>) -> Parsed<(Seq<char>, (Seq<char>, Seq<Seq<char>>))> {
    |x: Seq<u8>| dec_preference(x)
}

pub open spec fn dec_pairs(b: Seq<u8>) -> Parsed<Seq<(Seq<char>, Seq<char>)>> {
    dec_list(b, 8, pair_dec())
}

pub open spec fn dec_ranks(b: Seq<u8>) -> Parsed<Seq<(Seq<char>, i64)>> {
    dec_list(b, 12, rank_dec())
}

/// A parse that consumed the whole section, or nothing.
pub open spec fn whole<T>(p: Parsed<T>) -> Option<T> {
    match p {
        Some((v, rest)) => if rest.len() == 0 { Some(v) } else { None },
        None => None,
    }
}

/// Whether a string's byte length fits the format's length field.
pub open spec fn str_fits(s: Seq<char>) -> bool {
    encode_utf8(s).len() <= u32::MAX
}

pub open spec fn strs_fit(ss: Seq<Seq<char>>) -> bool {
    ss.len() <= u32::MAX && forall|i: int| 0 <= i < ss.len() ==> str_fits(#[trigger] ss[i])
}

pub open spec fn pairs_fit(ps: Seq<(Seq<char>, Seq<char>)>) -> bool {
    ps.len() <= u32::MAX && forall|i: int|
        0 <= i < ps.len() ==> str_fits(#[trigger] ps[i].0) && str_fits(ps[i].1)
}

pub open spec fn ranks_fit(rs: Seq<(Seq<char>, i64)>) -> bool {
    rs.len() <= u32::MAX && forall|i: int| 0 <= i < rs.len() ==> str_fits(#[trigger] rs[i].0)
}

// ---------------------------------------------------------------------------
// Round-trip lemmas.
// ---------------------------------------------------------------------------

proof fn lemma_count_round_trip(n: nat, tail: Seq<u8>)
    requires
        n <= u32::MAX,
    ensures
        dec_count(enc_count(n) + tail) == Some((n, tail)),
        enc_count(n).len() == 4,
{
    lemma_auto_spec_u32_to_from_le_bytes();
    let e = enc_count(n);
    assert((e + tail).take(4) =~= e);
    assert((e + tail).skip(4) =~= tail);
}

proof fn lemma_int_round_trip(v: i64, tail: Seq<u8>)
    ensures
        dec_int(enc_int(v) + tail) == Some((v, tail)),
        enc_int(v).len() == 8,
{
    lemma_auto_spec_u64_to_from_le_bytes();
    let e = enc_int(v);
    assert((e + tail).take(8) =~= e);
    assert((e + tail).skip(8) =~= tail);
    assert(((v as u64) as i64) == v) by (bit_vector);
}

proof fn lemma_str_round_trip(s: Seq<char>, tail: Seq<u8>)
    requires
        str_fits(s),
    ensures
        dec_str(enc_str(s) + tail) == Some((s, tail)),
        enc_str(s).len() >= 4,
{
    let bytes = encode_utf8(s);
    let n = bytes.len();
    lemma_count_round_trip(n, bytes + tail);
    assert(enc_str(s) + tail =~= enc_count(n) + (bytes + tail));
    assert((bytes + tail).take(n as int) =~= bytes);
    assert((bytes + tail).skip(n as int) =~= tail);
    encode_utf8_valid_utf8(s);
    encode_utf8_decode_utf8(s);
}

proof fn lemma_items_round_trip<T>(
    xs: Seq<T>,
    tail: Seq<u8>,
    f: spec_fn(T) -> Seq<u8>,
    d: spec_fn(Seq<u8>) -> Parsed<T>,
)
    requires
        forall|i: int, t: Seq<u8>| 0 <= i < xs.len() ==> #[trigger] d(f(xs[i]) + t) == Some((xs[i], t)),
    ensures
        dec_items(enc_items(xs, f) + tail, xs.len(), d) == Some((xs, tail)),
    decreases xs.len(),
{
    if xs.len() > 0 {
        let rest = xs.drop_first();
        assert forall|i: int, t: Seq<u8>| 0 <= i < rest.len() implies #[trigger] d(f(rest[i]) + t) == Some((rest[i], t)) by {
            assert(rest[i] == xs[i + 1]);
            assert(d(f(xs[i + 1]) + t) == Some((xs[i + 1], t)));
        }
        lemma_items_round_trip(rest, tail, f, d);
        let whole_bytes = enc_items(xs, f) + tail;
        assert(whole_bytes =~= f(xs[0]) + (enc_items(rest, f) + tail));
        assert(d(f(xs[0]) + (enc_items(rest, f) + tail)) == Some((xs[0], enc_items(rest, f) + tail)));
        assert(seq![xs[0]] + rest =~= xs);
    }
}

proof fn lemma_items_len<T>(xs: Seq<T>, f: spec_fn(T) -> Seq<u8>, least: nat)
    requires
        forall|i: int| 0 <= i < xs.len() ==> (#[trigger] f(xs[i])).len() >= least,
    ensures
        enc_items(xs, f).len() >= least * xs.len(),
    decreases xs.len(),
{
    if xs.len() > 0 {
        let rest = xs.drop_first();
        assert forall|i: int| 0 <= i < rest.len() implies (#[trigger] f(rest[i])).len() >= least by {
            assert(rest[i] == xs[i + 1]);
        }
        lemma_items_len(rest, f, least);
        assert(f(xs[0]).len() >= least);
        assert(least * xs.len() == least * rest.len() + least) by (nonlinear_arith)
            requires xs.len() == rest.len() + 1;
    }
}

proof fn lemma_list_round_trip<T>(
    xs: Seq<T>,
    tail: Seq<u8>,
    least: nat,
    f: spec_fn(T) -> Seq<u8>,
    d: spec_fn(Seq<u8>) -> Parsed<T>,
)
    requires
        least > 0,
        xs.len() <= u32::MAX,
        forall|i: int, t: Seq<u8>| 0 <= i < xs.len() ==> #[trigger] d(f(xs[i]) + t) == Some((xs[i], t)),
        forall|i: int| 0 <= i < xs.len() ==> (#[trigger] f(xs[i])).len() >= least,
    ensures
        dec_list(enc_list(xs, f) + tail, least, d) == Some((xs, tail)),
        enc_list(xs, f).len() >= 4,
{
    let items = enc_items(xs, f);
    lemma_count_round_trip(xs.len(), items + tail);
    assert(enc_list(xs, f) + tail =~= enc_count(xs.len()) + (items + tail));
    lemma_items_len(xs, f, least);
    let r = (items + tail).len();
    let n = xs.len();
    assert(n <= r / least) by (nonlinear_arith)
        requires least > 0, least * n <= r;
    lemma_items_round_trip(xs, tail, f, d);
}

proof fn lemma_set_round_trip(ss: Seq<Seq<char>>, tail: Seq<u8>)
    requires
        strs_fit(ss),
    ensures
        dec_set(enc_set(ss) + tail) == Some((ss, tail)),
        enc_set(ss).len() >= 4,
{
    let f = str_item();
    let d = str_dec();
    assert forall|i: int, t: Seq<u8>| 0 <= i < ss.len() implies #[trigger] d(f(ss[i]) + t) == Some((ss[i], t)) by {
        lemma_str_round_trip(ss[i], t);
    }
    assert forall|i: int| 0 <= i < ss.len() implies (#[trigger] f(ss[i])).len() >= 4 by {
        lemma_str_round_trip(ss[i], Seq::empty());
    }
    lemma_list_round_trip(ss, tail, 4, f, d);
}

proof fn lemma_pair_round_trip(p: (Seq<char>, Seq<char>), tail: Seq<u8>)
    requires
        str_fits(p.0),
        str_fits(p.1),
    ensures
        dec_pair(enc_pair(p) + tail) == Some((p, tail)),
        enc_pair(p).len() >= 8,
{
    lemma_str_round_trip(p.1, tail);
    lemma_str_round_trip(p.0, enc_str(p.1) + tail);
    assert(enc_pair(p) + tail =~= enc_str(p.0) + (enc_str(p.1) + tail));
}

proof fn lemma_rank_round_trip(p: (Seq<char>, i64), tail: Seq<u8>)
    requires
        str_fits(p.0),
    ensures
        dec_rank(enc_rank(p) + tail) == Some((p, tail)),
        enc_rank(p).len() >= 12,
{
    lemma_int_round_trip(p.1, tail);
    lemma_str_round_trip(p.0, enc_int(p.1) + tail);
    assert(enc_rank(p) + tail =~= enc_str(p.0) + (enc_int(p.1) + tail));
}

/// A set of strings decodes back to itself, in the order it was written.
pub proof fn set_round_trip(ss: Seq<Seq<char>>)
    requires
        strs_fit(ss),
    ensures
        whole(dec_set(enc_set(ss))) == Some(ss),
{
    lemma_set_round_trip(ss, Seq::empty());
    assert(enc_set(ss) + Seq::<u8>::empty() =~= enc_set(ss));
}

/// A list of pairs decodes back to itself, in the order it was written.
pub proof fn pairs_round_trip(ps: Seq<(Seq<char>, Seq<char>)>)
    requires
        pairs_fit(ps),
    ensures
        whole(dec_pairs(enc_pairs(ps))) == Some(ps),
{
    let f = pair_item();
    let d = pair_dec();
    assert forall|i: int, t: Seq<u8>| 0 <= i < ps.len() implies #[trigger] d(f(ps[i]) + t) == Some((ps[i], t)) by {
        lemma_pair_round_trip(ps[i], t);
    }
    assert forall|i: int| 0 <= i < ps.len() implies (#[trigger] f(ps[i])).len() >= 8 by {
        lemma_pair_round_trip(ps[i], Seq::empty());
    }
    lemma_list_round_trip(ps, Seq::empty(), 8, f, d);
    assert(enc_pairs(ps) + Seq::<u8>::empty() =~= enc_pairs(ps));
}

/// A rank table decodes back to itself, in the order it was written.
pub proof fn ranks_round_trip(rs: Seq<(Seq<char>, i64)>)
    requires
        ranks_fit(rs),
    ensures
        whole(dec_ranks(enc_ranks(rs))) == Some(rs),
{
    let f = rank_item();
    let d = rank_dec();
    assert forall|i: int, t: Seq<u8>| 0 <= i < rs.len() implies #[trigger] d(f(rs[i]) + t) == Some((rs[i], t)) by {
        lemma_rank_round_trip(rs[i], t);
    }
    assert forall|i: int| 0 <= i < rs.len() implies (#[trigger] f(rs[i])).len() >= 12 by {
        lemma_rank_round_trip(rs[i], Seq::empty());
    }
    lemma_list_round_trip(rs, Seq::empty(), 12, f, d);
    assert(enc_ranks(rs) + Seq::<u8>::empty() =~= enc_ranks(rs));
}

} // verus!

verus! {

// ---------------------------------------------------------------------------
// Writing.
// ---------------------------------------------------------------------------

proof fn lemma_items_push<T>(xs: Seq<T>, x: T, f: spec_fn(T) -> Seq<u8>)
    ensures
        enc_items(xs.push(x), f) == enc_items(xs, f) + f(x),
    decreases xs.len(),
{
    if xs.len() == 0 {
        assert(xs.push(x).drop_first() =~= Seq::<T>::empty());
        assert(enc_items(Seq::<T>::empty(), f) == Seq::<u8>::empty());
        assert(xs.push(x)[0] == x);
        assert(enc_items(xs.push(x), f) =~= f(x));
    } else {
        lemma_items_push(xs.drop_first(), x, f);
        assert(xs.push(x).drop_first() =~= xs.drop_first().push(x));
        assert(enc_items(xs.push(x), f) =~= f(xs[0]) + (enc_items(xs.drop_first(), f) + f(x)));
    }
}

fn put_count(out: &mut Vec<u8>, n: usize)
    requires
        n <= u32::MAX,
    ensures
        final(out)@ == old(out)@ + enc_count(n as nat),
{
    let mut bytes = u32_to_le_bytes(n as u32);
    out.append(&mut bytes);
}

fn put_str(out: &mut Vec<u8>, s: &str)
    requires
        str_fits(s@),
    ensures
        final(out)@ == old(out)@ + enc_str(s@),
{
    put_count(out, s.len());
    let mut bytes = slice_to_vec(s.as_bytes());
    out.append(&mut bytes);
    proof {
        assert(final(out)@ =~= old(out)@ + enc_str(s@));
    }
}

fn put_int(out: &mut Vec<u8>, v: i64)
    ensures
        final(out)@ == old(out)@ + enc_int(v),
{
    let mut bytes = u64_to_le_bytes(v as u64);
    out.append(&mut bytes);
}

fn put_set(out: &mut Vec<u8>, set: &Vec<String>)
    requires
        strs_fit(set.deep_view()),
    ensures
        final(out)@ == old(out)@ + enc_set(set.deep_view()),
{
    let ghost start = out@;
    put_count(out, set.len());
    for i in 0..set.len()
        invariant
            strs_fit(set.deep_view()),
            out@ == start + enc_count(set.len() as nat) + enc_items(set.deep_view().take(i as int), str_item()),
    {
        proof {
            lemma_items_push(set.deep_view().take(i as int), set.deep_view()[i as int], str_item());
            assert(set.deep_view().take(i as int + 1) =~= set.deep_view().take(i as int).push(set.deep_view()[i as int]));
        }
        assert(set.deep_view()[i as int] == set@[i as int]@);
        put_str(out, set[i].as_str());
        proof {
            assert(out@ =~= start + enc_count(set.len() as nat) + enc_items(set.deep_view().take(i as int + 1), str_item()));
        }
    }
    proof {
        assert(set.deep_view().take(set.len() as int) =~= set.deep_view());
        assert(out@ =~= start + enc_set(set.deep_view()));
    }
}

fn put_pairs(out: &mut Vec<u8>, pairs: &Vec<(String, String)>)
    requires
        pairs_fit(pairs.deep_view()),
    ensures
        final(out)@ == old(out)@ + enc_pairs(pairs.deep_view()),
{
    let ghost start = out@;
    put_count(out, pairs.len());
    for i in 0..pairs.len()
        invariant
            pairs_fit(pairs.deep_view()),
            out@ == start + enc_count(pairs.len() as nat) + enc_items(pairs.deep_view().take(i as int), pair_item()),
    {
        proof {
            lemma_items_push(pairs.deep_view().take(i as int), pairs.deep_view()[i as int], pair_item());
            assert(pairs.deep_view().take(i as int + 1) =~= pairs.deep_view().take(i as int).push(pairs.deep_view()[i as int]));
        }
        assert(pairs.deep_view()[i as int] == (pairs@[i as int].0@, pairs@[i as int].1@));
        assert(str_fits(pairs.deep_view()[i as int].0));
        assert(str_fits(pairs.deep_view()[i as int].1));
        put_str(out, pairs[i].0.as_str());
        put_str(out, pairs[i].1.as_str());
        proof {
            assert(out@ =~= start + enc_count(pairs.len() as nat) + enc_items(pairs.deep_view().take(i as int + 1), pair_item()));
        }
    }
    proof {
        assert(pairs.deep_view().take(pairs.len() as int) =~= pairs.deep_view());
        assert(out@ =~= start + enc_pairs(pairs.deep_view()));
    }
}

fn put_ranks(out: &mut Vec<u8>, ranks: &Vec<(String, i64)>)
    requires
        ranks_fit(ranks.deep_view()),
    ensures
        final(out)@ == old(out)@ + enc_ranks(ranks.deep_view()),
{
    let ghost start = out@;
    put_count(out, ranks.len());
    for i in 0..ranks.len()
        invariant
            ranks_fit(ranks.deep_view()),
            out@ == start + enc_count(ranks.len() as nat) + enc_items(ranks.deep_view().take(i as int), rank_item()),
    {
        proof {
            lemma_items_push(ranks.deep_view().take(i as int), ranks.deep_view()[i as int], rank_item());
            assert(ranks.deep_view().take(i as int + 1) =~= ranks.deep_view().take(i as int).push(ranks.deep_view()[i as int]));
        }
        assert(ranks.deep_view()[i as int] == (ranks@[i as int].0@, ranks@[i as int].1));
        assert(str_fits(ranks.deep_view()[i as int].0));
        put_str(out, ranks[i].0.as_str());
        put_int(out, ranks[i].1);
        proof {
            assert(out@ =~= start + enc_count(ranks.len() as nat) + enc_items(ranks.deep_view().take(i as int + 1), rank_item()));
        }
    }
    proof {
        assert(ranks.deep_view().take(ranks.len() as int) =~= ranks.deep_view());
        assert(out@ =~= start + enc_ranks(ranks.deep_view()));
    }
}

/// One set of strings, as a section of its own.
pub fn encode_set(set: &Vec<String>) -> (out: Vec<u8>)
    requires
        strs_fit(set.deep_view()),
    ensures
        out@ == enc_set(set.deep_view()),
{
    let mut out = Vec::new();
    put_set(&mut out, set);
    proof { assert(out@ =~= enc_set(set.deep_view())); }
    out
}

/// One rank table, as a section of its own.
pub fn encode_ranks(ranks: &Vec<(String, i64)>) -> (out: Vec<u8>)
    requires
        ranks_fit(ranks.deep_view()),
    ensures
        out@ == enc_ranks(ranks.deep_view()),
{
    let mut out = Vec::new();
    put_ranks(&mut out, ranks);
    proof { assert(out@ =~= enc_ranks(ranks.deep_view())); }
    out
}

} // verus!

verus! {

// ---------------------------------------------------------------------------
// Reading.
// ---------------------------------------------------------------------------

/// A cursor over one section's bytes.
struct Reader<'a> {
    buf: &'a [u8],
    at: usize,
}

impl<'a> Reader<'a> {
    /// The bytes not yet read.
    spec fn rest(&self) -> Seq<u8> {
        self.buf@.skip(self.at as int)
    }

    spec fn wf(&self) -> bool {
        self.at <= self.buf@.len()
    }

    fn new(buf: &'a [u8]) -> (r: Reader<'a>)
        ensures
            r.wf(),
            r.rest() == buf@,
    {
        let r = Reader { buf, at: 0 };
        proof { assert(r.rest() =~= buf@); }
        r
    }

    /// Whether every byte has been read.
    fn done(&self) -> (r: bool)
        requires
            self.wf(),
        ensures
            r == (self.rest().len() == 0),
    {
        self.at == self.buf.len()
    }

    /// The next `n` bytes, or `None` when fewer are left.
    fn take(&mut self, n: usize) -> (r: Option<&'a [u8]>)
        requires
            old(self).wf(),
        ensures
            final(self).wf(),
            match r {
                Some(s) => n <= old(self).rest().len() && s@ == old(self).rest().take(n as int)
                    && final(self).rest() == old(self).rest().skip(n as int),
                None => n > old(self).rest().len(),
            },
    {
        if n > self.buf.len() - self.at {
            return None;
        }
        let s = slice_subrange(self.buf, self.at, self.at + n);
        proof {
            assert(s@ =~= old(self).rest().take(n as int));
        }
        self.at = self.at + n;
        proof {
            assert(final(self).rest() =~= old(self).rest().skip(n as int));
        }
        Some(s)
    }

    /// A count, refused when it claims more elements than the rest of the
    /// section could hold at `least` bytes each — so a corrupt count cannot
    /// ask for an allocation larger than the payload could fill.
    fn count(&mut self, least: usize) -> (r: Option<usize>)
        requires
            old(self).wf(),
            least > 0,
        ensures
            final(self).wf(),
            match r {
                Some(n) => dec_bounded_count(old(self).rest(), least as nat) == Some((n as nat, final(self).rest())),
                None => dec_bounded_count(old(self).rest(), least as nat) is None,
            },
    {
        let bytes = match self.take(4) {
            Some(b) => b,
            None => return None,
        };
        let n = u32_from_le_bytes(bytes) as usize;
        if n > (self.buf.len() - self.at) / least {
            return None;
        }
        Some(n)
    }

    fn str(&mut self) -> (r: Option<String>)
        requires
            old(self).wf(),
        ensures
            final(self).wf(),
            match r {
                Some(s) => dec_str(old(self).rest()) == Some((s@, final(self).rest())),
                None => dec_str(old(self).rest()) is None,
            },
    {
        let len = match self.take(4) {
            Some(b) => b,
            None => return None,
        };
        let n = u32_from_le_bytes(len) as usize;
        let bytes = match self.take(n) {
            Some(b) => b,
            None => return None,
        };
        string_from_utf8(bytes)
    }

    fn integer(&mut self) -> (r: Option<i64>)
        requires
            old(self).wf(),
        ensures
            final(self).wf(),
            match r {
                Some(v) => dec_int(old(self).rest()) == Some((v, final(self).rest())),
                None => dec_int(old(self).rest()) is None,
            },
    {
        match self.take(8) {
            Some(b) => Some(u64_from_le_bytes(b) as i64),
            None => None,
        }
    }

    fn set(&mut self) -> (r: Option<Vec<String>>)
        requires
            old(self).wf(),
        ensures
            final(self).wf(),
            match r {
                Some(v) => dec_set(old(self).rest()) == Some((v.deep_view(), final(self).rest())),
                None => dec_set(old(self).rest()) is None,
            },
    {
        let ghost start = self.rest();
        let n = match self.count(4) {
            Some(n) => n,
            None => return None,
        };
        let ghost after_count = self.rest();
        let mut set: Vec<String> = Vec::new();
        let mut k: usize = 0;
        while k < n
            invariant
                self.wf(),
                k <= n,
                dec_bounded_count(start, 4) == Some((n as nat, after_count)),
                start == old(self).rest(),
                dec_items(after_count, n as nat, str_dec())
                    == prepend(set.deep_view(), dec_items(self.rest(), (n - k) as nat, str_dec())),
            decreases n - k,
        {
            let ghost before = self.rest();
            let ghost acc = set.deep_view();
            let s = match self.str() {
                Some(s) => s,
                None => {
                    proof { lemma_items_fail(before, (n - k) as nat, str_dec()); }
                    return None;
                },
            };
            proof {
                lemma_items_step(before, (n - k) as nat, str_dec(), s@, self.rest());
                lemma_prepend_push(acc, s@, dec_items(self.rest(), (n - k - 1) as nat, str_dec()));
            }
            set.push(s);
            proof {
                assert(set.deep_view() =~= acc.push(s@));
            }
            k = k + 1;
        }
        Some(set)
    }

    fn pairs(&mut self) -> (r: Option<Vec<(String, String)>>)
        requires
            old(self).wf(),
        ensures
            final(self).wf(),
            match r {
                Some(v) => dec_pairs(old(self).rest()) == Some((v.deep_view(), final(self).rest())),
                None => dec_pairs(old(self).rest()) is None,
            },
    {
        let ghost start = self.rest();
        let n = match self.count(8) {
            Some(n) => n,
            None => return None,
        };
        let ghost after_count = self.rest();
        let mut pairs: Vec<(String, String)> = Vec::new();
        let mut k: usize = 0;
        while k < n
            invariant
                self.wf(),
                k <= n,
                dec_bounded_count(start, 8) == Some((n as nat, after_count)),
                start == old(self).rest(),
                dec_items(after_count, n as nat, pair_dec())
                    == prepend(pairs.deep_view(), dec_items(self.rest(), (n - k) as nat, pair_dec())),
            decreases n - k,
        {
            let ghost before = self.rest();
            let ghost acc = pairs.deep_view();
            let term = match self.str() {
                Some(s) => s,
                None => {
                    proof { lemma_items_fail(before, (n - k) as nat, pair_dec()); }
                    return None;
                },
            };
            let reading = match self.str() {
                Some(s) => s,
                None => {
                    proof { lemma_items_fail(before, (n - k) as nat, pair_dec()); }
                    return None;
                },
            };
            proof {
                lemma_items_step(before, (n - k) as nat, pair_dec(), (term@, reading@), self.rest());
                lemma_prepend_push(acc, (term@, reading@), dec_items(self.rest(), (n - k - 1) as nat, pair_dec()));
            }
            pairs.push((term, reading));
            proof {
                assert(pairs.deep_view() =~= acc.push((term@, reading@)));
            }
            k = k + 1;
        }
        Some(pairs)
    }

    fn ranks(&mut self) -> (r: Option<Vec<(String, i64)>>)
        requires
            old(self).wf(),
        ensures
            final(self).wf(),
            match r {
                Some(v) => dec_ranks(old(self).rest()) == Some((v.deep_view(), final(self).rest())),
                None => dec_ranks(old(self).rest()) is None,
            },
    {
        let ghost start = self.rest();
        let n = match self.count(12) {
            Some(n) => n,
            None => return None,
        };
        let ghost after_count = self.rest();
        let mut ranks: Vec<(String, i64)> = Vec::new();
        let mut k: usize = 0;
        while k < n
            invariant
                self.wf(),
                k <= n,
                dec_bounded_count(start, 12) == Some((n as nat, after_count)),
                start == old(self).rest(),
                dec_items(after_count, n as nat, rank_dec())
                    == prepend(ranks.deep_view(), dec_items(self.rest(), (n - k) as nat, rank_dec())),
            decreases n - k,
        {
            let ghost before = self.rest();
            let ghost acc = ranks.deep_view();
            let term = match self.str() {
                Some(s) => s,
                None => {
                    proof { lemma_items_fail(before, (n - k) as nat, rank_dec()); }
                    return None;
                },
            };
            let rank = match self.integer() {
                Some(v) => v,
                None => {
                    proof { lemma_items_fail(before, (n - k) as nat, rank_dec()); }
                    return None;
                },
            };
            proof {
                lemma_items_step(before, (n - k) as nat, rank_dec(), (term@, rank), self.rest());
                lemma_prepend_push(acc, (term@, rank), dec_items(self.rest(), (n - k - 1) as nat, rank_dec()));
            }
            ranks.push((term, rank));
            proof {
                assert(ranks.deep_view() =~= acc.push((term@, rank)));
            }
            k = k + 1;
        }
        Some(ranks)
    }
}

/// `acc` in front of whatever a parse produced.
pub open spec fn prepend<T>(acc: Seq<T>, p: Parsed<Seq<T>>) -> Parsed<Seq<T>> {
    match p {
        Some((xs, rest)) => Some((acc + xs, rest)),
        None => None,
    }
}

proof fn lemma_items_step<T>(b: Seq<u8>, m: nat, d: spec_fn(Seq<u8>) -> Parsed<T>, x: T, after: Seq<u8>)
    requires
        m > 0,
        d(b) == Some((x, after)),
    ensures
        dec_items(b, m, d) == prepend(seq![x], dec_items(after, (m - 1) as nat, d)),
{
}

proof fn lemma_items_fail<T>(b: Seq<u8>, m: nat, d: spec_fn(Seq<u8>) -> Parsed<T>)
    requires
        m > 0,
        d(b) is None,
    ensures
        dec_items(b, m, d) is None,
{
}

proof fn lemma_prepend_push<T>(acc: Seq<T>, x: T, p: Parsed<Seq<T>>)
    ensures
        prepend(acc, prepend(seq![x], p)) == prepend(acc.push(x), p),
{
    if let Some((xs, rest)) = p {
        assert(acc + (seq![x] + xs) =~= acc.push(x) + xs);
    }
}

/// The master section: the master's headwords, its `(headword, reading)`
/// entries, its conjugatable headwords, and the standard dictionaries' entries.
pub open spec fn dec_master(b: Seq<u8>) -> Parsed<(Seq<Seq<char>>, Seq<(Seq<char>, Seq<char>)>, Seq<Seq<char>>, Seq<(Seq<char>, Seq<char>)>)> {
    match dec_set(b) {
        Some((headwords, r1)) => match dec_pairs(r1) {
            Some((entries, r2)) => match dec_set(r2) {
                Some((conjugatable, r3)) => match dec_pairs(r3) {
                    Some((standard, r4)) => Some(((headwords, entries, conjugatable, standard), r4)),
                    None => None,
                },
                None => None,
            },
            None => None,
        },
        None => None,
    }
}

pub open spec fn enc_master(
    headwords: Seq<Seq<char>>,
    entries: Seq<(Seq<char>, Seq<char>)>,
    conjugatable: Seq<Seq<char>>,
    standard: Seq<(Seq<char>, Seq<char>)>,
) -> Seq<u8> {
    enc_set(headwords) + enc_pairs(entries) + enc_set(conjugatable) + enc_pairs(standard)
}

/// What the master dictionary and the standard ones beside it contribute, as
/// one section.
pub type MasterSection = (Vec<String>, Vec<(String, String)>, Vec<String>, Vec<(String, String)>);

/// A section holding one set of strings, or `None` when it is truncated, not
/// UTF-8, or has anything left over.
pub fn decode_set(payload: &[u8]) -> (r: Option<Vec<String>>)
    ensures
        match r {
            Some(v) => whole(dec_set(payload@)) == Some(v.deep_view()),
            None => whole(dec_set(payload@)) is None,
        },
{
    let mut r = Reader::new(payload);
    let set = match r.set() {
        Some(s) => s,
        None => return None,
    };
    if r.done() { Some(set) } else { None }
}

/// A section holding one rank table, under the same rules as [`decode_set`].
pub fn decode_ranks(payload: &[u8]) -> (r: Option<Vec<(String, i64)>>)
    ensures
        match r {
            Some(v) => whole(dec_ranks(payload@)) == Some(v.deep_view()),
            None => whole(dec_ranks(payload@)) is None,
        },
{
    let mut r = Reader::new(payload);
    let ranks = match r.ranks() {
        Some(s) => s,
        None => return None,
    };
    if r.done() { Some(ranks) } else { None }
}

/// The master section, under the same rules as [`decode_set`].
pub fn decode_master(payload: &[u8]) -> (r: Option<MasterSection>)
    ensures
        match r {
            Some(v) => whole(dec_master(payload@)) == Some((v.0.deep_view(), v.1.deep_view(), v.2.deep_view(), v.3.deep_view())),
            None => whole(dec_master(payload@)) is None,
        },
{
    let mut r = Reader::new(payload);
    let headwords = match r.set() {
        Some(s) => s,
        None => return None,
    };
    let entries = match r.pairs() {
        Some(s) => s,
        None => return None,
    };
    let conjugatable = match r.set() {
        Some(s) => s,
        None => return None,
    };
    let standard = match r.pairs() {
        Some(s) => s,
        None => return None,
    };
    if r.done() { Some((headwords, entries, conjugatable, standard)) } else { None }
}

} // verus!

verus! {

// ---------------------------------------------------------------------------
// The arbitration section.
// ---------------------------------------------------------------------------

pub open spec fn ambiguous_fit(xs: Seq<((Seq<char>, Seq<char>), i64)>) -> bool {
    xs.len() <= u32::MAX && forall|i: int|
        0 <= i < xs.len() ==> str_fits(#[trigger] xs[i].0.0) && str_fits(xs[i].0.1)
}

pub open spec fn preferences_fit(xs: Seq<(Seq<char>, (Seq<char>, Seq<Seq<char>>))>) -> bool {
    xs.len() <= u32::MAX && forall|i: int|
        0 <= i < xs.len() ==> str_fits(#[trigger] xs[i].0) && str_fits(xs[i].1.0) && strs_fit(xs[i].1.1)
}

/// Which spelling of a shared reading, and which reading of a shared
/// spelling: the two tables that arbitrate rather than describe.
pub open spec fn enc_arbitration(
    ambiguous: Seq<((Seq<char>, Seq<char>), i64)>,
    preferred: Seq<(Seq<char>, (Seq<char>, Seq<Seq<char>>))>,
) -> Seq<u8> {
    enc_list(ambiguous, ambiguous_item()) + enc_list(preferred, preference_item())
}

pub open spec fn dec_arbitration(b: Seq<u8>) -> Parsed<(Seq<((Seq<char>, Seq<char>), i64)>, Seq<(Seq<char>, (Seq<char>, Seq<Seq<char>>))>)> {
    match dec_list(b, 16, ambiguous_dec()) {
        Some((ambiguous, r1)) => match dec_list(r1, 12, preference_dec()) {
            Some((preferred, r2)) => Some(((ambiguous, preferred), r2)),
            None => None,
        },
        None => None,
    }
}

proof fn lemma_ambiguous_round_trip(p: ((Seq<char>, Seq<char>), i64), tail: Seq<u8>)
    requires
        str_fits(p.0.0),
        str_fits(p.0.1),
    ensures
        dec_ambiguous(enc_ambiguous(p) + tail) == Some((p, tail)),
        enc_ambiguous(p).len() >= 16,
{
    lemma_int_round_trip(p.1, tail);
    lemma_pair_round_trip(p.0, enc_int(p.1) + tail);
    vstd::seq_lib::lemma_concat_associative(enc_pair(p.0), enc_int(p.1), tail);
}

proof fn lemma_preference_round_trip(p: (Seq<char>, (Seq<char>, Seq<Seq<char>>)), tail: Seq<u8>)
    requires
        str_fits(p.0),
        str_fits(p.1.0),
        strs_fit(p.1.1),
    ensures
        dec_preference(enc_preference(p) + tail) == Some((p, tail)),
        enc_preference(p).len() >= 12,
{
    lemma_set_round_trip(p.1.1, tail);
    lemma_pair_round_trip((p.0, p.1.0), enc_set(p.1.1) + tail);
    vstd::seq_lib::lemma_concat_associative(enc_pair((p.0, p.1.0)), enc_set(p.1.1), tail);
}

proof fn lemma_ambiguous_list_round_trip(ambiguous: Seq<((Seq<char>, Seq<char>), i64)>, tail: Seq<u8>)
    requires
        ambiguous_fit(ambiguous),
    ensures
        dec_list(enc_list(ambiguous, ambiguous_item()) + tail, 16, ambiguous_dec()) == Some((ambiguous, tail)),
{
    let fa = ambiguous_item();
    let da = ambiguous_dec();
    assert forall|i: int, t: Seq<u8>| 0 <= i < ambiguous.len() implies #[trigger] da(fa(ambiguous[i]) + t) == Some((ambiguous[i], t)) by {
        lemma_ambiguous_round_trip(ambiguous[i], t);
    }
    assert forall|i: int| 0 <= i < ambiguous.len() implies (#[trigger] fa(ambiguous[i])).len() >= 16 by {
        lemma_ambiguous_round_trip(ambiguous[i], Seq::empty());
    }
    lemma_list_round_trip(ambiguous, tail, 16, fa, da);
}

proof fn lemma_preference_list_round_trip(preferred: Seq<(Seq<char>, (Seq<char>, Seq<Seq<char>>))>, tail: Seq<u8>)
    requires
        preferences_fit(preferred),
    ensures
        dec_list(enc_list(preferred, preference_item()) + tail, 12, preference_dec()) == Some((preferred, tail)),
{
    let fp = preference_item();
    let dp = preference_dec();
    assert forall|i: int, t: Seq<u8>| 0 <= i < preferred.len() implies #[trigger] dp(fp(preferred[i]) + t) == Some((preferred[i], t)) by {
        lemma_preference_round_trip(preferred[i], t);
    }
    assert forall|i: int| 0 <= i < preferred.len() implies (#[trigger] fp(preferred[i])).len() >= 12 by {
        lemma_preference_round_trip(preferred[i], Seq::empty());
    }
    lemma_list_round_trip(preferred, tail, 12, fp, dp);
}

proof fn lemma_arbitration_round_trip(
    ambiguous: Seq<((Seq<char>, Seq<char>), i64)>,
    preferred: Seq<(Seq<char>, (Seq<char>, Seq<Seq<char>>))>,
    tail: Seq<u8>,
)
    requires
        ambiguous_fit(ambiguous),
        preferences_fit(preferred),
    ensures
        dec_arbitration(enc_arbitration(ambiguous, preferred) + tail) == Some(((ambiguous, preferred), tail)),
{
    let second = enc_list(preferred, preference_item());
    lemma_preference_list_round_trip(preferred, tail);
    lemma_ambiguous_list_round_trip(ambiguous, second + tail);
    vstd::seq_lib::lemma_concat_associative(enc_list(ambiguous, ambiguous_item()), second, tail);
}

proof fn lemma_master_round_trip(
    headwords: Seq<Seq<char>>,
    entries: Seq<(Seq<char>, Seq<char>)>,
    conjugatable: Seq<Seq<char>>,
    standard: Seq<(Seq<char>, Seq<char>)>,
    tail: Seq<u8>,
)
    requires
        strs_fit(headwords),
        pairs_fit(entries),
        strs_fit(conjugatable),
        pairs_fit(standard),
    ensures
        dec_master(enc_master(headwords, entries, conjugatable, standard) + tail)
            == Some(((headwords, entries, conjugatable, standard), tail)),
{
    let a = enc_set(headwords);
    let b = enc_pairs(entries);
    let c = enc_set(conjugatable);
    let d = enc_pairs(standard);
    let t3 = d + tail;
    let t2 = c + t3;
    let t1 = b + t2;
    lemma_pairs_round_trip(standard, tail);
    lemma_set_round_trip(conjugatable, t3);
    lemma_pairs_round_trip(entries, t2);
    lemma_set_round_trip(headwords, t1);
    vstd::seq_lib::lemma_concat_associative(a + b + c, d, tail);
    vstd::seq_lib::lemma_concat_associative(a + b, c, t3);
    vstd::seq_lib::lemma_concat_associative(a, b, t2);
}

proof fn lemma_pairs_round_trip(ps: Seq<(Seq<char>, Seq<char>)>, tail: Seq<u8>)
    requires
        pairs_fit(ps),
    ensures
        dec_pairs(enc_pairs(ps) + tail) == Some((ps, tail)),
{
    let f = pair_item();
    let d = pair_dec();
    assert forall|i: int, t: Seq<u8>| 0 <= i < ps.len() implies #[trigger] d(f(ps[i]) + t) == Some((ps[i], t)) by {
        lemma_pair_round_trip(ps[i], t);
    }
    assert forall|i: int| 0 <= i < ps.len() implies (#[trigger] f(ps[i])).len() >= 8 by {
        lemma_pair_round_trip(ps[i], Seq::empty());
    }
    lemma_list_round_trip(ps, tail, 8, f, d);
}

proof fn lemma_ranks_round_trip(rs: Seq<(Seq<char>, i64)>, tail: Seq<u8>)
    requires
        ranks_fit(rs),
    ensures
        dec_ranks(enc_ranks(rs) + tail) == Some((rs, tail)),
{
    let f = rank_item();
    let d = rank_dec();
    assert forall|i: int, t: Seq<u8>| 0 <= i < rs.len() implies #[trigger] d(f(rs[i]) + t) == Some((rs[i], t)) by {
        lemma_rank_round_trip(rs[i], t);
    }
    assert forall|i: int| 0 <= i < rs.len() implies (#[trigger] f(rs[i])).len() >= 12 by {
        lemma_rank_round_trip(rs[i], Seq::empty());
    }
    lemma_list_round_trip(rs, tail, 12, f, d);
}

} // verus!

verus! {

impl<'a> Reader<'a> {
    fn ambiguous(&mut self) -> (r: Option<Vec<((String, String), i64)>>)
        requires
            old(self).wf(),
        ensures
            final(self).wf(),
            match r {
                Some(v) => dec_list(old(self).rest(), 16, ambiguous_dec()) == Some((v.deep_view(), final(self).rest())),
                None => dec_list(old(self).rest(), 16, ambiguous_dec()) is None,
            },
    {
        let ghost start = self.rest();
        let n = match self.count(16) {
            Some(n) => n,
            None => return None,
        };
        let ghost after_count = self.rest();
        let mut out: Vec<((String, String), i64)> = Vec::new();
        let mut k: usize = 0;
        while k < n
            invariant
                self.wf(),
                k <= n,
                dec_bounded_count(start, 16) == Some((n as nat, after_count)),
                start == old(self).rest(),
                dec_items(after_count, n as nat, ambiguous_dec())
                    == prepend(out.deep_view(), dec_items(self.rest(), (n - k) as nat, ambiguous_dec())),
            decreases n - k,
        {
            let ghost before = self.rest();
            let ghost acc = out.deep_view();
            let term = match self.str() {
                Some(s) => s,
                None => {
                    proof { lemma_items_fail(before, (n - k) as nat, ambiguous_dec()); }
                    return None;
                },
            };
            let reading = match self.str() {
                Some(s) => s,
                None => {
                    proof { lemma_items_fail(before, (n - k) as nat, ambiguous_dec()); }
                    return None;
                },
            };
            let rank = match self.integer() {
                Some(v) => v,
                None => {
                    proof { lemma_items_fail(before, (n - k) as nat, ambiguous_dec()); }
                    return None;
                },
            };
            proof {
                lemma_items_step(before, (n - k) as nat, ambiguous_dec(), ((term@, reading@), rank), self.rest());
                lemma_prepend_push(acc, ((term@, reading@), rank), dec_items(self.rest(), (n - k - 1) as nat, ambiguous_dec()));
            }
            out.push(((term, reading), rank));
            proof {
                assert(out.deep_view() =~= acc.push(((term@, reading@), rank)));
            }
            k = k + 1;
        }
        Some(out)
    }

    fn preferences(&mut self) -> (r: Option<Vec<(String, PreferredReading)>>)
        requires
            old(self).wf(),
        ensures
            final(self).wf(),
            match r {
                Some(v) => dec_list(old(self).rest(), 12, preference_dec()) == Some((v.deep_view(), final(self).rest())),
                None => dec_list(old(self).rest(), 12, preference_dec()) is None,
            },
    {
        let ghost start = self.rest();
        let n = match self.count(12) {
            Some(n) => n,
            None => return None,
        };
        let ghost after_count = self.rest();
        let mut out: Vec<(String, PreferredReading)> = Vec::new();
        let mut k: usize = 0;
        while k < n
            invariant
                self.wf(),
                k <= n,
                dec_bounded_count(start, 12) == Some((n as nat, after_count)),
                start == old(self).rest(),
                dec_items(after_count, n as nat, preference_dec())
                    == prepend(out.deep_view(), dec_items(self.rest(), (n - k) as nat, preference_dec())),
            decreases n - k,
        {
            let ghost before = self.rest();
            let ghost acc = out.deep_view();
            let term = match self.str() {
                Some(s) => s,
                None => {
                    proof { lemma_items_fail(before, (n - k) as nat, preference_dec()); }
                    return None;
                },
            };
            let preferred = match self.str() {
                Some(s) => s,
                None => {
                    proof { lemma_items_fail(before, (n - k) as nat, preference_dec()); }
                    return None;
                },
            };
            let acceptable = match self.set() {
                Some(s) => s,
                None => {
                    proof { lemma_items_fail(before, (n - k) as nat, preference_dec()); }
                    return None;
                },
            };
            let ghost item = (term@, (preferred@, acceptable.deep_view()));
            proof {
                lemma_items_step(before, (n - k) as nat, preference_dec(), item, self.rest());
                lemma_prepend_push(acc, item, dec_items(self.rest(), (n - k - 1) as nat, preference_dec()));
            }
            out.push((term, PreferredReading { preferred, acceptable }));
            proof {
                assert(out.deep_view() =~= acc.push(item));
            }
            k = k + 1;
        }
        Some(out)
    }
}

/// What the arbitration section holds: corpus ranks for the master headwords
/// that share a reading with another, and the reading to believe per headword.
pub type ArbitrationSection = (Vec<((String, String), i64)>, Vec<(String, PreferredReading)>);

/// The arbitration section, under the same rules as [`decode_set`].
pub fn decode_arbitration(payload: &[u8]) -> (r: Option<ArbitrationSection>)
    ensures
        match r {
            Some(v) => whole(dec_arbitration(payload@)) == Some((v.0.deep_view(), v.1.deep_view())),
            None => whole(dec_arbitration(payload@)) is None,
        },
{
    let mut r = Reader::new(payload);
    let ambiguous = match r.ambiguous() {
        Some(s) => s,
        None => return None,
    };
    let preferred = match r.preferences() {
        Some(s) => s,
        None => return None,
    };
    if r.done() { Some((ambiguous, preferred)) } else { None }
}

} // verus!

verus! {

/// Everything the pipeline needs out of the dictionaries, and nothing that
/// comes from anywhere else.
///
/// The mined deck and the works' cast lists are deliberately absent: they are
/// small, not derived from a dictionary, and change whenever a card is added or
/// a cast list is edited.
pub struct Derived {
    /// Every headword, and every reading, of the dictionaries whose listing
    /// makes a term a word.
    pub wordhood_terms: Vec<String>,
    pub wordhood_readings: Vec<String>,
    pub master_headwords: Vec<String>,
    pub master_entries: Vec<(String, String)>,
    pub master_conjugatable: Vec<String>,
    pub standard_entries: Vec<(String, String)>,
    /// Corpus ranks for the master headwords that share a reading with another.
    pub ambiguous_ranks: Vec<((String, String), i64)>,
    /// The reader-facing rank per spelling, every term the list carries.
    pub reader_ranks: Vec<(String, i64)>,
    /// The corpus rank per spelling.
    pub bccwj_ranks: Vec<(String, i64)>,
    pub preferred_readings: Vec<(String, PreferredReading)>,
}

/// The sections the cache is stored in, one row each, in the order
/// [`Derived::encode`] writes them.
pub const SECTIONS: [&'static str; 6] = [
    "wordhood_terms",
    "wordhood_readings",
    "master",
    "reader_ranks",
    "corpus_ranks",
    "arbitration",
];

impl Derived {
    /// Whether every count and every string's byte length fits the format's
    /// four-byte fields.
    pub open spec fn fits(&self) -> bool {
        &&& strs_fit(self.wordhood_terms.deep_view())
        &&& strs_fit(self.wordhood_readings.deep_view())
        &&& strs_fit(self.master_headwords.deep_view())
        &&& pairs_fit(self.master_entries.deep_view())
        &&& strs_fit(self.master_conjugatable.deep_view())
        &&& pairs_fit(self.standard_entries.deep_view())
        &&& ambiguous_fit(self.ambiguous_ranks.deep_view())
        &&& ranks_fit(self.reader_ranks.deep_view())
        &&& ranks_fit(self.bccwj_ranks.deep_view())
        &&& preferences_fit(self.preferred_readings.deep_view())
    }

    pub open spec fn master_bytes(&self) -> Seq<u8> {
        enc_master(
            self.master_headwords.deep_view(),
            self.master_entries.deep_view(),
            self.master_conjugatable.deep_view(),
            self.standard_entries.deep_view(),
        )
    }

    pub open spec fn arbitration_bytes(&self) -> Seq<u8> {
        enc_arbitration(self.ambiguous_ranks.deep_view(), self.preferred_readings.deep_view())
    }

    /// Every section, named, in the order of [`SECTIONS`].
    pub fn encode(&self) -> (r: Vec<(&'static str, Vec<u8>)>)
        requires
            self.fits(),
        ensures
            r@.len() == 6,
            r@[0].0@ == "wordhood_terms"@ && r@[0].1@ == enc_set(self.wordhood_terms.deep_view()),
            r@[1].0@ == "wordhood_readings"@ && r@[1].1@ == enc_set(self.wordhood_readings.deep_view()),
            r@[2].0@ == "master"@ && r@[2].1@ == self.master_bytes(),
            r@[3].0@ == "reader_ranks"@ && r@[3].1@ == enc_ranks(self.reader_ranks.deep_view()),
            r@[4].0@ == "corpus_ranks"@ && r@[4].1@ == enc_ranks(self.bccwj_ranks.deep_view()),
            r@[5].0@ == "arbitration"@ && r@[5].1@ == self.arbitration_bytes(),
    {
        let mut master: Vec<u8> = Vec::new();
        put_set(&mut master, &self.master_headwords);
        put_pairs(&mut master, &self.master_entries);
        put_set(&mut master, &self.master_conjugatable);
        put_pairs(&mut master, &self.standard_entries);
        proof {
            assert(master@ =~= self.master_bytes());
        }

        let mut arbitration: Vec<u8> = Vec::new();
        put_ambiguous(&mut arbitration, &self.ambiguous_ranks);
        put_preferences(&mut arbitration, &self.preferred_readings);
        proof {
            assert(arbitration@ =~= self.arbitration_bytes());
        }

        let mut out: Vec<(&'static str, Vec<u8>)> = Vec::new();
        out.push(("wordhood_terms", encode_set(&self.wordhood_terms)));
        out.push(("wordhood_readings", encode_set(&self.wordhood_readings)));
        out.push(("master", master));
        out.push(("reader_ranks", encode_ranks(&self.reader_ranks)));
        out.push(("corpus_ranks", encode_ranks(&self.bccwj_ranks)));
        out.push(("arbitration", arbitration));
        out
    }
}

fn put_ambiguous(out: &mut Vec<u8>, xs: &Vec<((String, String), i64)>)
    requires
        ambiguous_fit(xs.deep_view()),
    ensures
        final(out)@ == old(out)@ + enc_list(xs.deep_view(), ambiguous_item()),
{
    let ghost start = out@;
    put_count(out, xs.len());
    for i in 0..xs.len()
        invariant
            ambiguous_fit(xs.deep_view()),
            out@ == start + enc_count(xs.len() as nat) + enc_items(xs.deep_view().take(i as int), ambiguous_item()),
    {
        proof {
            lemma_items_push(xs.deep_view().take(i as int), xs.deep_view()[i as int], ambiguous_item());
            assert(xs.deep_view().take(i as int + 1) =~= xs.deep_view().take(i as int).push(xs.deep_view()[i as int]));
        }
        assert(xs.deep_view()[i as int] == ((xs@[i as int].0.0@, xs@[i as int].0.1@), xs@[i as int].1));
        assert(str_fits(xs.deep_view()[i as int].0.0));
        assert(str_fits(xs.deep_view()[i as int].0.1));
        put_str(out, xs[i].0.0.as_str());
        put_str(out, xs[i].0.1.as_str());
        put_int(out, xs[i].1);
        proof {
            assert(out@ =~= start + enc_count(xs.len() as nat) + enc_items(xs.deep_view().take(i as int + 1), ambiguous_item()));
        }
    }
    proof {
        assert(xs.deep_view().take(xs.len() as int) =~= xs.deep_view());
        assert(out@ =~= start + enc_list(xs.deep_view(), ambiguous_item()));
    }
}

fn put_preferences(out: &mut Vec<u8>, xs: &Vec<(String, PreferredReading)>)
    requires
        preferences_fit(xs.deep_view()),
    ensures
        final(out)@ == old(out)@ + enc_list(xs.deep_view(), preference_item()),
{
    let ghost start = out@;
    put_count(out, xs.len());
    for i in 0..xs.len()
        invariant
            preferences_fit(xs.deep_view()),
            out@ == start + enc_count(xs.len() as nat) + enc_items(xs.deep_view().take(i as int), preference_item()),
    {
        proof {
            lemma_items_push(xs.deep_view().take(i as int), xs.deep_view()[i as int], preference_item());
            assert(xs.deep_view().take(i as int + 1) =~= xs.deep_view().take(i as int).push(xs.deep_view()[i as int]));
        }
        assert(xs.deep_view()[i as int] == (xs@[i as int].0@, (xs@[i as int].1.preferred@, xs@[i as int].1.acceptable.deep_view())));
        assert(str_fits(xs.deep_view()[i as int].0));
        assert(str_fits(xs.deep_view()[i as int].1.0));
        assert(strs_fit(xs.deep_view()[i as int].1.1));
        put_str(out, xs[i].0.as_str());
        put_str(out, xs[i].1.preferred.as_str());
        put_set(out, &xs[i].1.acceptable);
        proof {
            assert(out@ =~= start + enc_count(xs.len() as nat) + enc_items(xs.deep_view().take(i as int + 1), preference_item()));
        }
    }
    proof {
        assert(xs.deep_view().take(xs.len() as int) =~= xs.deep_view());
        assert(out@ =~= start + enc_list(xs.deep_view(), preference_item()));
    }
}

/// What the cache hands back is what was stored: each of the six sections
/// [`Derived::encode`] writes decodes, by its own decoder, to exactly the
/// collections it was written from, in the order they were written.
pub proof fn cache_round_trip(d: Derived)
    requires
        d.fits(),
    ensures
        whole(dec_set(enc_set(d.wordhood_terms.deep_view()))) == Some(d.wordhood_terms.deep_view()),
        whole(dec_set(enc_set(d.wordhood_readings.deep_view()))) == Some(d.wordhood_readings.deep_view()),
        whole(dec_master(d.master_bytes())) == Some((
            d.master_headwords.deep_view(),
            d.master_entries.deep_view(),
            d.master_conjugatable.deep_view(),
            d.standard_entries.deep_view(),
        )),
        whole(dec_ranks(enc_ranks(d.reader_ranks.deep_view()))) == Some(d.reader_ranks.deep_view()),
        whole(dec_ranks(enc_ranks(d.bccwj_ranks.deep_view()))) == Some(d.bccwj_ranks.deep_view()),
        whole(dec_arbitration(d.arbitration_bytes())) == Some((d.ambiguous_ranks.deep_view(), d.preferred_readings.deep_view())),
{
    let empty = Seq::<u8>::empty();
    set_round_trip(d.wordhood_terms.deep_view());
    set_round_trip(d.wordhood_readings.deep_view());
    ranks_round_trip(d.reader_ranks.deep_view());
    ranks_round_trip(d.bccwj_ranks.deep_view());
    lemma_master_round_trip(
        d.master_headwords.deep_view(),
        d.master_entries.deep_view(),
        d.master_conjugatable.deep_view(),
        d.standard_entries.deep_view(),
        empty,
    );
    assert(d.master_bytes() + empty =~= d.master_bytes());
    lemma_arbitration_round_trip(d.ambiguous_ranks.deep_view(), d.preferred_readings.deep_view(), empty);
    assert(d.arbitration_bytes() + empty =~= d.arbitration_bytes());
}

proof fn lemma_impossible_count(b: Seq<u8>, least: nat)
    requires
        b.len() >= 4,
        b.len() - 4 < 4 * (u32::MAX as int),
        b.take(4) == spec_u32_to_le_bytes(u32::MAX),
        least >= 4,
    ensures
        dec_bounded_count(b, least) is None,
{
    lemma_auto_spec_u32_to_from_le_bytes();
    assert(spec_u32_to_le_bytes(u32::MAX).len() == 4);
    assert(spec_u32_from_le_bytes(b.take(4)) == u32::MAX);
    let rest = b.skip(4);
    let r = rest.len();
    assert(r == b.len() - 4);
    assert(r / least <= r / 4) by (nonlinear_arith)
        requires least >= 4;
    assert(r / 4 < u32::MAX) by (nonlinear_arith)
        requires r < 4 * (u32::MAX as int);
}

/// A section whose leading count was overwritten with the largest count the
/// format can hold is refused: no section of any size a store writes could
/// hold that many entries, so the decoder stops before reading one.
pub proof fn an_impossible_count_is_refused(p: Seq<u8>)
    requires
        p.len() >= 4,
        p.len() - 4 < 4 * (u32::MAX as int),
        p.take(4) == spec_u32_to_le_bytes(u32::MAX),
    ensures
        whole(dec_set(p)) is None,
        whole(dec_ranks(p)) is None,
        whole(dec_master(p)) is None,
        whole(dec_arbitration(p)) is None,
{
    lemma_impossible_count(p, 4);
    lemma_impossible_count(p, 12);
    lemma_impossible_count(p, 16);
}

/// A section with anything written after it is refused: every decoder insists
/// on consuming the whole payload.
pub proof fn trailing_bytes_are_refused(d: Derived, extra: Seq<u8>)
    requires
        d.fits(),
        extra.len() > 0,
    ensures
        whole(dec_set(enc_set(d.wordhood_terms.deep_view()) + extra)) is None,
        whole(dec_set(enc_set(d.wordhood_readings.deep_view()) + extra)) is None,
        whole(dec_master(d.master_bytes() + extra)) is None,
        whole(dec_ranks(enc_ranks(d.reader_ranks.deep_view()) + extra)) is None,
        whole(dec_ranks(enc_ranks(d.bccwj_ranks.deep_view()) + extra)) is None,
        whole(dec_arbitration(d.arbitration_bytes() + extra)) is None,
{
    lemma_set_round_trip(d.wordhood_terms.deep_view(), extra);
    lemma_set_round_trip(d.wordhood_readings.deep_view(), extra);
    lemma_ranks_round_trip(d.reader_ranks.deep_view(), extra);
    lemma_ranks_round_trip(d.bccwj_ranks.deep_view(), extra);
    lemma_master_round_trip(
        d.master_headwords.deep_view(),
        d.master_entries.deep_view(),
        d.master_conjugatable.deep_view(),
        d.standard_entries.deep_view(),
        extra,
    );
    lemma_arbitration_round_trip(d.ambiguous_ranks.deep_view(), d.preferred_readings.deep_view(), extra);
}

} // verus!

verus! {

// ---------------------------------------------------------------------------
// What a decoder makes of more bytes than it needs.
// ---------------------------------------------------------------------------

/// Whether decoder `d`, having read `p`, reads `p + e` the same way and
/// leaves `e` over with the rest: a decoder never looks past what it takes.
pub open spec fn extends<T>(d: spec_fn(Seq<u8>) -> Parsed<T>, p: Seq<u8>, e: Seq<u8>) -> bool {
    match d(p) {
        Some((v, rest)) => d(p + e) == Some((v, rest + e)),
        None => true,
    }
}

pub open spec fn count_dec() -> spec_fn(Seq<u8>) -> Parsed<nat> {
    |x: Seq<u8>| dec_count(x)
}

pub open spec fn int_dec() -> spec_fn(Seq<u8>) -> Parsed<i64> {
    |x: Seq<u8>| dec_int(x)
}

pub open spec fn set_dec() -> spec_fn(Seq<u8>) -> Parsed<Seq<Seq<char>>> {
    |x: Seq<u8>| dec_set(x)
}

pub open spec fn pairs_dec() -> spec_fn(Seq<u8>) -> Parsed<Seq<(Seq<char>, Seq<char>)>> {
    |x: Seq<u8>| dec_pairs(x)
}

pub open spec fn ranks_dec() -> spec_fn(Seq<u8>) -> Parsed<Seq<(Seq<char>, i64)>> {
    |x: Seq<u8>| dec_ranks(x)
}

proof fn lemma_count_extends(p: Seq<u8>, e: Seq<u8>)
    ensures
        extends(count_dec(), p, e),
{
    if p.len() >= 4 {
        assert((p + e).take(4) =~= p.take(4));
        assert((p + e).skip(4) =~= p.skip(4) + e);
    }
}

proof fn lemma_int_extends(p: Seq<u8>, e: Seq<u8>)
    ensures
        extends(int_dec(), p, e),
{
    if p.len() >= 8 {
        assert((p + e).take(8) =~= p.take(8));
        assert((p + e).skip(8) =~= p.skip(8) + e);
    }
}

proof fn lemma_bounded_count_extends(p: Seq<u8>, e: Seq<u8>, least: nat)
    requires
        least > 0,
    ensures
        match dec_bounded_count(p, least) {
            Some((n, rest)) => dec_bounded_count(p + e, least) == Some((n, rest + e)),
            None => true,
        },
{
    lemma_count_extends(p, e);
    match dec_count(p) {
        Some((n, rest)) => {
            if n <= rest.len() / least {
                vstd::arithmetic::div_mod::lemma_div_is_ordered(rest.len() as int, (rest + e).len() as int, least as int);
            }
        },
        None => {},
    }
}

proof fn lemma_str_extends(p: Seq<u8>, e: Seq<u8>)
    ensures
        extends(str_dec(), p, e),
{
    lemma_count_extends(p, e);
    match dec_count(p) {
        Some((n, rest)) => {
            if n <= rest.len() {
                assert((rest + e).take(n as int) =~= rest.take(n as int));
                assert((rest + e).skip(n as int) =~= rest.skip(n as int) + e);
            }
        },
        None => {},
    }
}

proof fn lemma_items_extends<T>(b: Seq<u8>, e: Seq<u8>, n: nat, d: spec_fn(Seq<u8>) -> Parsed<T>)
    requires
        forall|p: Seq<u8>, q: Seq<u8>| #[trigger] extends(d, p, q),
    ensures
        match dec_items(b, n, d) {
            Some((xs, tail)) => dec_items(b + e, n, d) == Some((xs, tail + e)),
            None => true,
        },
    decreases n,
{
    if n > 0 {
        assert(extends(d, b, e));
        match d(b) {
            Some((x, rest)) => {
                lemma_items_extends(rest, e, (n - 1) as nat, d);
            },
            None => {},
        }
    }
}

proof fn lemma_list_extends<T>(b: Seq<u8>, e: Seq<u8>, least: nat, d: spec_fn(Seq<u8>) -> Parsed<T>)
    requires
        least > 0,
        forall|p: Seq<u8>, q: Seq<u8>| #[trigger] extends(d, p, q),
    ensures
        match dec_list(b, least, d) {
            Some((xs, tail)) => dec_list(b + e, least, d) == Some((xs, tail + e)),
            None => true,
        },
{
    lemma_bounded_count_extends(b, e, least);
    match dec_bounded_count(b, least) {
        Some((n, rest)) => lemma_items_extends(rest, e, n, d),
        None => {},
    }
}

proof fn lemma_strs_extend()
    ensures
        forall|p: Seq<u8>, q: Seq<u8>| #[trigger] extends(str_dec(), p, q),
{
    assert forall|p: Seq<u8>, q: Seq<u8>| #[trigger] extends(str_dec(), p, q) by {
        lemma_str_extends(p, q);
    }
}

proof fn lemma_pair_extends(p: Seq<u8>, e: Seq<u8>)
    ensures
        extends(pair_dec(), p, e),
{
    lemma_str_extends(p, e);
    match dec_str(p) {
        Some((t, r1)) => lemma_str_extends(r1, e),
        None => {},
    }
}

proof fn lemma_rank_extends(p: Seq<u8>, e: Seq<u8>)
    ensures
        extends(rank_dec(), p, e),
{
    lemma_str_extends(p, e);
    match dec_str(p) {
        Some((t, r1)) => lemma_int_extends(r1, e),
        None => {},
    }
}

proof fn lemma_set_extends(p: Seq<u8>, e: Seq<u8>)
    ensures
        extends(set_dec(), p, e),
{
    lemma_strs_extend();
    lemma_list_extends(p, e, 4, str_dec());
}

proof fn lemma_pairs_extends(p: Seq<u8>, e: Seq<u8>)
    ensures
        extends(pairs_dec(), p, e),
{
    assert forall|a: Seq<u8>, b: Seq<u8>| #[trigger] extends(pair_dec(), a, b) by {
        lemma_pair_extends(a, b);
    }
    lemma_list_extends(p, e, 8, pair_dec());
}

proof fn lemma_ranks_extends(p: Seq<u8>, e: Seq<u8>)
    ensures
        extends(ranks_dec(), p, e),
{
    assert forall|a: Seq<u8>, b: Seq<u8>| #[trigger] extends(rank_dec(), a, b) by {
        lemma_rank_extends(a, b);
    }
    lemma_list_extends(p, e, 12, rank_dec());
}

proof fn lemma_ambiguous_extends(p: Seq<u8>, e: Seq<u8>)
    ensures
        extends(ambiguous_dec(), p, e),
{
    lemma_pair_extends(p, e);
    match dec_pair(p) {
        Some((x, r1)) => lemma_int_extends(r1, e),
        None => {},
    }
}

proof fn lemma_preference_extends(p: Seq<u8>, e: Seq<u8>)
    ensures
        extends(preference_dec(), p, e),
{
    lemma_pair_extends(p, e);
    match dec_pair(p) {
        Some((x, r1)) => lemma_set_extends(r1, e),
        None => {},
    }
}

proof fn lemma_master_extends(p: Seq<u8>, e: Seq<u8>)
    ensures
        match dec_master(p) {
            Some((v, rest)) => dec_master(p + e) == Some((v, rest + e)),
            None => true,
        },
{
    lemma_set_extends(p, e);
    match dec_set(p) {
        Some((h, r1)) => {
            lemma_pairs_extends(r1, e);
            match dec_pairs(r1) {
                Some((en, r2)) => {
                    lemma_set_extends(r2, e);
                    match dec_set(r2) {
                        Some((c, r3)) => lemma_pairs_extends(r3, e),
                        None => {},
                    }
                },
                None => {},
            }
        },
        None => {},
    }
}

proof fn lemma_arbitration_extends(p: Seq<u8>, e: Seq<u8>)
    ensures
        match dec_arbitration(p) {
            Some((v, rest)) => dec_arbitration(p + e) == Some((v, rest + e)),
            None => true,
        },
{
    assert forall|a: Seq<u8>, b: Seq<u8>| #[trigger] extends(ambiguous_dec(), a, b) by {
        lemma_ambiguous_extends(a, b);
    }
    assert forall|a: Seq<u8>, b: Seq<u8>| #[trigger] extends(preference_dec(), a, b) by {
        lemma_preference_extends(a, b);
    }
    lemma_list_extends(p, e, 16, ambiguous_dec());
    match dec_list(p, 16, ambiguous_dec()) {
        Some((a, r1)) => lemma_list_extends(r1, e, 12, preference_dec()),
        None => {},
    }
}

/// A section cut short is refused: no strict prefix of a section
/// [`Derived::encode`] writes decodes by that section's decoder, so a truncated
/// cache costs a rebuild rather than handing back part of a collection.
pub proof fn truncated_sections_are_refused(d: Derived, k: int)
    requires
        d.fits(),
        0 <= k,
    ensures
        k < enc_set(d.wordhood_terms.deep_view()).len() ==>
            whole(dec_set(enc_set(d.wordhood_terms.deep_view()).take(k))) is None,
        k < enc_set(d.wordhood_readings.deep_view()).len() ==>
            whole(dec_set(enc_set(d.wordhood_readings.deep_view()).take(k))) is None,
        k < d.master_bytes().len() ==> whole(dec_master(d.master_bytes().take(k))) is None,
        k < enc_ranks(d.reader_ranks.deep_view()).len() ==>
            whole(dec_ranks(enc_ranks(d.reader_ranks.deep_view()).take(k))) is None,
        k < enc_ranks(d.bccwj_ranks.deep_view()).len() ==>
            whole(dec_ranks(enc_ranks(d.bccwj_ranks.deep_view()).take(k))) is None,
        k < d.arbitration_bytes().len() ==> whole(dec_arbitration(d.arbitration_bytes().take(k))) is None,
{
    cache_round_trip(d);
    let w1 = enc_set(d.wordhood_terms.deep_view());
    if k < w1.len() {
        assert(w1 =~= w1.take(k) + w1.skip(k));
        lemma_set_extends(w1.take(k), w1.skip(k));
    }
    let w2 = enc_set(d.wordhood_readings.deep_view());
    if k < w2.len() {
        assert(w2 =~= w2.take(k) + w2.skip(k));
        lemma_set_extends(w2.take(k), w2.skip(k));
    }
    let w3 = d.master_bytes();
    if k < w3.len() {
        assert(w3 =~= w3.take(k) + w3.skip(k));
        lemma_master_extends(w3.take(k), w3.skip(k));
    }
    let w4 = enc_ranks(d.reader_ranks.deep_view());
    if k < w4.len() {
        assert(w4 =~= w4.take(k) + w4.skip(k));
        lemma_ranks_extends(w4.take(k), w4.skip(k));
    }
    let w5 = enc_ranks(d.bccwj_ranks.deep_view());
    if k < w5.len() {
        assert(w5 =~= w5.take(k) + w5.skip(k));
        lemma_ranks_extends(w5.take(k), w5.skip(k));
    }
    let w6 = d.arbitration_bytes();
    if k < w6.len() {
        assert(w6 =~= w6.take(k) + w6.skip(k));
        lemma_arbitration_extends(w6.take(k), w6.skip(k));
    }
}

} // verus!

verus! {

pub open spec fn pair_fits(p: (Seq<char>, Seq<char>)) -> bool {
    str_fits(p.0) && str_fits(p.1)
}

pub open spec fn preference_fits(p: (Seq<char>, (Seq<char>, Seq<Seq<char>>))) -> bool {
    str_fits(p.0) && str_fits(p.1.0) && strs_fit(p.1.1)
}

/// Whether a string's byte length fits the format's length field.
fn str_fits_exec(s: &str) -> (r: bool)
    ensures
        r == str_fits(s@),
{
    let bytes = s.as_bytes();
    bytes.len() <= 0xFFFF_FFFFusize
}

fn strs_fit_exec(v: &Vec<String>) -> (r: bool)
    ensures
        r == strs_fit(v.deep_view()),
{
    if v.len() > 0xFFFF_FFFFusize {
        return false;
    }
    for i in 0..v.len()
        invariant
            forall|k: int| 0 <= k < i ==> str_fits(#[trigger] v.deep_view()[k]),
    {
        assert(v.deep_view()[i as int] == v@[i as int]@);
        if !str_fits_exec(v[i].as_str()) {
            return false;
        }
    }
    true
}

fn pairs_fit_exec(v: &Vec<(String, String)>) -> (r: bool)
    ensures
        r == pairs_fit(v.deep_view()),
{
    if v.len() > 0xFFFF_FFFFusize {
        return false;
    }
    for i in 0..v.len()
        invariant
            forall|k: int| 0 <= k < i ==> pair_fits(#[trigger] v.deep_view()[k]),
    {
        let ghost e = v.deep_view()[i as int];
        assert(e.0 == v@[i as int].0@ && e.1 == v@[i as int].1@);
        let a = str_fits_exec(v[i].0.as_str());
        let b = str_fits_exec(v[i].1.as_str());
        if !a || !b {
            return false;
        }
        assert(pair_fits(v.deep_view()[i as int]));
    }
    true
}

fn ranks_fit_exec(v: &Vec<(String, i64)>) -> (r: bool)
    ensures
        r == ranks_fit(v.deep_view()),
{
    if v.len() > 0xFFFF_FFFFusize {
        return false;
    }
    for i in 0..v.len()
        invariant
            forall|k: int| 0 <= k < i ==> str_fits(#[trigger] v.deep_view()[k].0),
    {
        assert(v.deep_view()[i as int].0 == v@[i as int].0@);
        if !str_fits_exec(v[i].0.as_str()) {
            return false;
        }
    }
    true
}

fn ambiguous_fit_exec(v: &Vec<((String, String), i64)>) -> (r: bool)
    ensures
        r == ambiguous_fit(v.deep_view()),
{
    if v.len() > 0xFFFF_FFFFusize {
        return false;
    }
    for i in 0..v.len()
        invariant
            forall|k: int| 0 <= k < i ==> pair_fits((#[trigger] v.deep_view()[k]).0),
    {
        let ghost e = v.deep_view()[i as int];
        assert(e.0.0 == v@[i as int].0.0@ && e.0.1 == v@[i as int].0.1@);
        let a = str_fits_exec(v[i].0.0.as_str());
        let b = str_fits_exec(v[i].0.1.as_str());
        if !a || !b {
            return false;
        }
        assert(pair_fits(v.deep_view()[i as int].0));
    }
    true
}

fn preferences_fit_exec(v: &Vec<(String, PreferredReading)>) -> (r: bool)
    ensures
        r == preferences_fit(v.deep_view()),
{
    if v.len() > 0xFFFF_FFFFusize {
        return false;
    }
    for i in 0..v.len()
        invariant
            forall|k: int| 0 <= k < i ==> preference_fits(#[trigger] v.deep_view()[k]),
    {
        let ghost e = v.deep_view()[i as int];
        assert(e.0 == v@[i as int].0@ && e.1.0 == v@[i as int].1.preferred@
            && e.1.1 == v@[i as int].1.acceptable.deep_view());
        let a = str_fits_exec(v[i].0.as_str());
        let b = str_fits_exec(v[i].1.preferred.as_str());
        let c = strs_fit_exec(&v[i].1.acceptable);
        if !a || !b || !c {
            return false;
        }
        assert(preference_fits(v.deep_view()[i as int]));
    }
    true
}

impl Derived {
    /// Whether every count and every string's byte length fits the format's
    /// four-byte fields — what [`Derived::encode`] asks of the collections.
    pub fn fits_format(&self) -> (r: bool)
        ensures
            r == self.fits(),
    {
        strs_fit_exec(&self.wordhood_terms) && strs_fit_exec(&self.wordhood_readings)
            && strs_fit_exec(&self.master_headwords) && pairs_fit_exec(&self.master_entries)
            && strs_fit_exec(&self.master_conjugatable) && pairs_fit_exec(&self.standard_entries)
            && ambiguous_fit_exec(&self.ambiguous_ranks) && ranks_fit_exec(&self.reader_ranks)
            && ranks_fit_exec(&self.bccwj_ranks) && preferences_fit_exec(&self.preferred_readings)
    }
}

/// The first row stored under a section's name, by index.
pub open spec fn first_row(rows: Seq<(Seq<char>, Seq<char>)>, name: Seq<char>, i: int) -> bool {
    0 <= i < rows.len() && rows[i].0 == name && forall|j: int| 0 <= j < i ==> rows[j].0 != name
}

/// Whether the first row stored under `name` carries fingerprint `f`.
pub open spec fn stamped(rows: Seq<(Seq<char>, Seq<char>)>, name: Seq<char>, f: Seq<char>) -> bool {
    exists|i: int| #[trigger] first_row(rows, name, i) && rows[i].1 == f
}

/// The fingerprint every section agrees on: each of [`SECTIONS`] has a row,
/// and the first row of each carries `f`.
pub open spec fn agreed_fingerprint(rows: Seq<(Seq<char>, Seq<char>)>, f: Seq<char>) -> bool {
    &&& stamped(rows, "wordhood_terms"@, f)
    &&& stamped(rows, "wordhood_readings"@, f)
    &&& stamped(rows, "master"@, f)
    &&& stamped(rows, "reader_ranks"@, f)
    &&& stamped(rows, "corpus_ranks"@, f)
    &&& stamped(rows, "arbitration"@, f)
}

pub open spec fn section_name(s: int) -> Seq<char> {
    if s == 0 { "wordhood_terms"@ }
    else if s == 1 { "wordhood_readings"@ }
    else if s == 2 { "master"@ }
    else if s == 3 { "reader_ranks"@ }
    else if s == 4 { "corpus_ranks"@ }
    else { "arbitration"@ }
}

fn first_stored(rows: &Vec<(String, String)>, name: &str) -> (r: Option<usize>)
    ensures
        match r {
            Some(i) => first_row(rows.deep_view(), name@, i as int),
            None => forall|j: int| 0 <= j < rows.len() ==> rows.deep_view()[j].0 != name@,
        },
{
    for i in 0..rows.len()
        invariant
            forall|j: int| 0 <= j < i ==> rows.deep_view()[j].0 != name@,
    {
        assert(rows.deep_view()[i as int].0 == rows@[i as int].0@);
        if crate::strings::same(rows[i].0.as_str(), name) {
            return Some(i);
        }
    }
    None
}

/// The fingerprint the stored sections agree on, from `(name, fingerprint)`
/// rows: `None` when a section is missing or two of them disagree — a
/// half-written cache is no cache.
pub fn stored_fingerprint(rows: &Vec<(String, String)>) -> (r: Option<String>)
    ensures
        match r {
            Some(f) => agreed_fingerprint(rows.deep_view(), f@),
            None => forall|f: Seq<char>| !agreed_fingerprint(rows.deep_view(), f),
        },
{
    let ghost rv = rows.deep_view();
    let mut agreed: Option<String> = None;
    for s in 0..6usize
        invariant
            rv == rows.deep_view(),
            s == 0 <==> agreed is None,
            agreed matches Some(f) ==> forall|t: int| 0 <= t < s ==> stamped(rv, #[trigger] section_name(t), f@),
    {
        let name: &str = if s == 0 { "wordhood_terms" } else if s == 1 { "wordhood_readings" } else if s == 2 { "master" }
            else if s == 3 { "reader_ranks" } else if s == 4 { "corpus_ranks" } else { "arbitration" };
        assert(name@ == section_name(s as int));
        match first_stored(rows, name) {
            None => {
                proof {
                    assert forall|f: Seq<char>| !agreed_fingerprint(rv, f) by {
                        if agreed_fingerprint(rv, f) {
                            assert(stamped(rv, section_name(s as int), f));
                        }
                    }
                }
                return None;
            },
            Some(i) => {
                assert(rv[i as int] == (rows@[i as int].0@, rows@[i as int].1@));
                match &agreed {
                    None => {
                        agreed = Some(rows[i].1.clone());
                    },
                    Some(f) => {
                        if !crate::strings::same(f.as_str(), rows[i].1.as_str()) {
                            proof {
                                assert forall|g: Seq<char>| !agreed_fingerprint(rv, g) by {
                                    if agreed_fingerprint(rv, g) {
                                        assert(stamped(rv, section_name(0), g));
                                        assert(stamped(rv, section_name(0), f@));
                                        assert(stamped(rv, section_name(s as int), g));
                                        let a = choose|a: int| #[trigger] first_row(rv, section_name(0), a) && rv[a].1 == g;
                                        let b = choose|b: int| #[trigger] first_row(rv, section_name(0), b) && rv[b].1 == f@;
                                        assert(a == b) by {
                                            if a < b { assert(rv[a].0 != section_name(0)); }
                                            if b < a { assert(rv[b].0 != section_name(0)); }
                                        }
                                        let c = choose|c: int| #[trigger] first_row(rv, section_name(s as int), c) && rv[c].1 == g;
                                        assert(c == i as int) by {
                                            if c < i { assert(rv[c].0 != section_name(s as int)); }
                                            if i < c { assert(rv[i as int].0 != section_name(s as int)); }
                                        }
                                    }
                                }
                            }
                            return None;
                        }
                    },
                }
            },
        }
    }
    proof {
        if agreed is Some {
            let f = agreed->0;
            assert(stamped(rv, section_name(0), f@));
            assert(stamped(rv, section_name(1), f@));
            assert(stamped(rv, section_name(2), f@));
            assert(stamped(rv, section_name(3), f@));
            assert(stamped(rv, section_name(4), f@));
            assert(stamped(rv, section_name(5), f@));
        }
    }
    agreed
}

} // verus!

verus! {

/// Row `i` is the last one stored under `name` that carries fingerprint `want`.
pub open spec fn last_current(rows: Seq<(Seq<char>, Seq<char>, Seq<u8>)>, name: Seq<char>, want: Seq<char>, i: int) -> bool {
    &&& 0 <= i < rows.len()
    &&& rows[i].0 == name && rows[i].1 == want
    &&& forall|j: int| i < j < rows.len() ==> !(rows[j].0 == name && rows[j].1 == want)
}

/// Whether `payload` is what the last row stored under `name` with
/// fingerprint `want` holds.
pub open spec fn carried(rows: Seq<(Seq<char>, Seq<char>, Seq<u8>)>, name: Seq<char>, want: Seq<char>, payload: Seq<u8>) -> bool {
    exists|i: int| #[trigger] last_current(rows, name, want, i) && payload == rows[i].2
}

/// Whether some row stored under `name` carries fingerprint `want`.
pub open spec fn has_current(rows: Seq<(Seq<char>, Seq<char>, Seq<u8>)>, name: Seq<char>, want: Seq<char>) -> bool {
    exists|i: int| 0 <= i < rows.len() && (#[trigger] rows[i]).0 == name && rows[i].1 == want
}

fn last_current_row(rows: &Vec<(String, String, Vec<u8>)>, name: &str, want: &str) -> (r: Option<usize>)
    ensures
        match r {
            Some(i) => last_current(rows.deep_view(), name@, want@, i as int),
            None => !has_current(rows.deep_view(), name@, want@),
        },
{
    let ghost rv = rows.deep_view();
    let mut k = rows.len();
    while k > 0
        invariant
            rv == rows.deep_view(),
            k <= rows.len(),
            forall|j: int| k <= j < rows.len() ==> !(rv[j].0 == name@ && rv[j].1 == want@),
        decreases k,
    {
        k = k - 1;
        assert(rv[k as int] == (rows@[k as int].0@, rows@[k as int].1@, rows@[k as int].2@));
        if crate::strings::same(rows[k].0.as_str(), name) && crate::strings::same(rows[k].1.as_str(), want) {
            return Some(k);
        }
    }
    proof {
        if has_current(rv, name@, want@) {
            let i = choose|i: int| 0 <= i < rv.len() && (#[trigger] rv[i]).0 == name@ && rv[i].1 == want@;
            assert(!(rv[i].0 == name@ && rv[i].1 == want@));
        }
    }
    None
}

/// The payloads of the six sections, in the order of [`SECTIONS`], from
/// `(name, fingerprint, payload)` rows: for each section the last row stored
/// under its name that carries `want`. `None` exactly when some section has
/// no such row — a cache stamped for other dictionaries, or half written, is
/// no cache.
pub fn current_payloads(rows: &Vec<(String, String, Vec<u8>)>, want: &str) -> (r: Option<Vec<Vec<u8>>>)
    ensures
        match r {
            Some(v) => v.len() == 6 && forall|s: int| 0 <= s < 6 ==> #[trigger] carried(rows.deep_view(), section_name(s), want@, v@[s]@),
            None => exists|s: int| 0 <= s < 6 && !has_current(rows.deep_view(), #[trigger] section_name(s), want@),
        },
{
    let ghost rv = rows.deep_view();
    let mut out: Vec<Vec<u8>> = Vec::new();
    for s in 0..6usize
        invariant
            rv == rows.deep_view(),
            out.len() == s,
            forall|t: int| 0 <= t < s ==> #[trigger] carried(rv, section_name(t), want@, out@[t]@),
    {
        let name: &str = if s == 0 { "wordhood_terms" } else if s == 1 { "wordhood_readings" } else if s == 2 { "master" }
            else if s == 3 { "reader_ranks" } else if s == 4 { "corpus_ranks" } else { "arbitration" };
        assert(name@ == section_name(s as int));
        match last_current_row(rows, name, want) {
            Some(i) => {
                assert(rv[i as int] == (rows@[i as int].0@, rows@[i as int].1@, rows@[i as int].2@));
                let ghost before = out@;
                out.push(rows[i].2.clone());
                proof {
                    assert forall|t: int| 0 <= t < s + 1 implies #[trigger] carried(rv, section_name(t), want@, out@[t]@) by {
                        if t < s {
                            assert(out@[t] == before[t]);
                        } else {
                            assert(last_current(rv, section_name(t), want@, i as int));
                        }
                    }
                }
            },
            None => {
                proof { assert(!has_current(rv, section_name(s as int), want@)); }
                return None;
            },
        }
    }
    Some(out)
}

} // verus!
