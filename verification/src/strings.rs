//! The few calls into std's string and character API that vstd gives no
//! specification, each stated as its documentation states it.
use vstd::prelude::*;
use vstd::utf8::*;

verus! {

/// `String::push`: appends one character to the end of the string.
#[verifier::external_body]
pub(crate) fn push_char(s: &mut String, c: char)
    ensures
        final(s)@ == old(s)@.push(c),
{
    s.push(c);
}

/// `char::from_u32`, on a value that is a Unicode scalar value: it returns the
/// character with that code point. Every code point this library builds lies
/// in the hiragana block, far from the surrogate range.
#[verifier::external_body]
pub(crate) fn char_from_u32(u: u32) -> (c: char)
    requires
        0x3041 <= u <= 0x3096,
    ensures
        c as u32 == u,
{
    char::from_u32(u).unwrap()
}

/// `std::str::from_utf8`, owned: `None` exactly when the bytes are not valid
/// UTF-8, and otherwise the string they encode.
#[verifier::external_body]
pub(crate) fn string_from_utf8(bytes: &[u8]) -> (r: Option<String>)
    ensures
        r.is_some() == valid_utf8(bytes@),
        r matches Some(s) ==> s@ == decode_utf8(bytes@),
{
    match std::str::from_utf8(bytes) {
        Ok(s) => Some(s.to_string()),
        Err(_) => None,
    }
}

/// Whether Unicode calls a character alphabetic or numeric — what
/// `char::is_alphanumeric` answers from its tables.
pub uninterp spec fn alphanumeric(c: char) -> bool;

/// The first character of a character's lowercase mapping — what the
/// iterator `char::to_lowercase` yields first.
pub uninterp spec fn lowercase_first(c: char) -> Option<char>;

/// `char::is_alphanumeric`: its answer is named, not spelled out, since it
/// comes from Unicode's tables; it depends on the character alone.
#[verifier::external_body]
pub(crate) fn is_alphanumeric(c: char) -> (r: bool)
    ensures
        r == alphanumeric(c),
{
    c.is_alphanumeric()
}

/// The first character `char::to_lowercase` yields, named for the same
/// reason; it depends on the character alone.
#[verifier::external_body]
pub(crate) fn to_lowercase_first(c: char) -> (r: Option<char>)
    ensures
        r == lowercase_first(c),
{
    c.to_lowercase().next()
}

/// Whether a character is an ASCII digit.
pub open spec fn ascii_digit(c: char) -> bool {
    '0' <= c && c <= '9'
}

/// The value of a string of ASCII digits, read in base ten.
pub open spec fn digits_value(s: Seq<char>) -> int
    decreases s.len(),
{
    if s.len() == 0 { 0 } else { digits_value(s.drop_last()) * 10 + ((s.last() as int) - ('0' as int)) }
}

/// The integer a string spells: an optional `+` or `-`, then one or more ASCII
/// digits and nothing else.
pub open spec fn decimal(s: Seq<char>) -> Option<int> {
    let signed = s.len() > 0 && (s[0] == '+' || s[0] == '-');
    let body = if signed { s.drop_first() } else { s };
    if body.len() > 0 && forall|i: int| 0 <= i < body.len() ==> ascii_digit(#[trigger] body[i]) {
        Some(if signed && s[0] == '-' { -digits_value(body) } else { digits_value(body) })
    } else {
        None
    }
}

/// `i64`'s `FromStr`: the integer the string spells, when it spells one that
/// fits in an `i64`; `None` for anything else — whitespace, underscores, an
/// empty string, a lone sign, or a value out of range.
#[verifier::external_body]
pub(crate) fn parse_i64(s: &str) -> (r: Option<i64>)
    ensures
        r == (match decimal(s@) {
            Some(v) => if i64::MIN <= v && v <= i64::MAX { Some(v as i64) } else { None::<i64> },
            None => None::<i64>,
        }),
{
    s.parse::<i64>().ok()
}

} // verus!

verus! {

/// The characters of a string, in order.
pub fn chars_of(s: &str) -> (r: Vec<char>)
    ensures
        r@ == s@,
{
    let mut out: Vec<char> = Vec::new();
    for c in it: s.chars()
        invariant
            it.seq() == s@,
            out@ == s@.take(it.index() as int),
    {
        out.push(c);
        proof { assert(out@ =~= s@.take(it.index() as int + 1)); }
    }
    proof { assert(s@.take(s@.len() as int) =~= s@); }
    out
}

/// Whether two strings hold the same characters.
pub fn same(a: &str, b: &str) -> (r: bool)
    ensures
        r == (a@ == b@),
{
    let x = chars_of(a);
    let y = chars_of(b);
    if x.len() != y.len() {
        return false;
    }
    let mut i: usize = 0;
    while i < x.len()
        invariant
            x@ == a@,
            y@ == b@,
            x.len() == y.len(),
            i <= x.len(),
            forall|j: int| 0 <= j < i ==> x@[j] == y@[j],
        decreases x.len() - i,
    {
        if x[i] != y[i] {
            return false;
        }
        i = i + 1;
    }
    proof { assert(x@ =~= y@); }
    true
}

/// Whether `s` begins with `prefix`.
pub fn starts_with(s: &str, prefix: &str) -> (r: bool)
    ensures
        r == prefix@.is_prefix_of(s@),
{
    let x = chars_of(s);
    let p = chars_of(prefix);
    if p.len() > x.len() {
        return false;
    }
    let mut i: usize = 0;
    while i < p.len()
        invariant
            x@ == s@,
            p@ == prefix@,
            p.len() <= x.len(),
            i <= p.len(),
            forall|j: int| 0 <= j < i ==> p@[j] == x@[j],
        decreases p.len() - i,
    {
        if p[i] != x[i] {
            return false;
        }
        i = i + 1;
    }
    proof { assert(p@ =~= x@.subrange(0, p@.len() as int)); }
    true
}

/// `a` followed by `b`.
pub fn concat(a: &str, b: &str) -> (r: String)
    ensures
        r@ == a@ + b@,
{
    let mut out = a.to_owned();
    out.append(b);
    out
}

/// The first character, if any.
pub fn first_char(s: &str) -> (r: Option<char>)
    ensures
        r == (if s@.len() > 0 { Some(s@[0]) } else { None::<char> }),
{
    for c in it: s.chars()
        invariant
            it.seq() == s@,
            it.index() == 0,
    {
        return Some(c);
    }
    None
}

/// How many characters `s` holds.
pub fn char_len(s: &str) -> (n: usize)
    ensures
        n == s@.len(),
{
    s.unicode_len()
}

} // verus!
