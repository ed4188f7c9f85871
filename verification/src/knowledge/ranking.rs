//! How common a word is, as the SQL the ledger's queries order by.
use vstd::prelude::*;
use crate::strings::{concat, push_char};

verus! {

/// A decimal digit's character.
pub open spec fn digit_char(d: int) -> char {
    if d == 0 { '0' } else if d == 1 { '1' } else if d == 2 { '2' } else if d == 3 { '3' }
    else if d == 4 { '4' } else if d == 5 { '5' } else if d == 6 { '6' } else if d == 7 { '7' }
    else if d == 8 { '8' } else { '9' }
}

/// A natural number in decimal, without leading zeros.
pub open spec fn spelled_nat(n: nat) -> Seq<char>
    decreases n,
{
    if n < 10 { seq![digit_char(n as int)] } else { spelled_nat(n / 10).push(digit_char((n % 10) as int)) }
}

/// An integer in decimal, a `-` before a negative one.
pub open spec fn spelled(n: int) -> Seq<char> {
    if n < 0 { seq!['-'] + spelled_nat((-n) as nat) } else { spelled_nat(n as nat) }
}

fn digit(d: u64) -> (r: char)
    requires
        d < 10,
    ensures
        r == digit_char(d as int),
{
    if d == 0 { '0' } else if d == 1 { '1' } else if d == 2 { '2' } else if d == 3 { '3' }
    else if d == 4 { '4' } else if d == 5 { '5' } else if d == 6 { '6' } else if d == 7 { '7' }
    else if d == 8 { '8' } else { '9' }
}

fn push_decimal(out: &mut String, m: u64)
    ensures
        final(out)@ == old(out)@ + spelled_nat(m as nat),
    decreases m,
{
    if m >= 10 {
        push_decimal(out, m / 10);
    }
    push_char(out, digit(m % 10));
    proof {
        if m >= 10 {
            assert(old(out)@ + spelled_nat((m / 10) as nat) + seq![digit_char((m % 10) as int)]
                =~= old(out)@ + spelled_nat(m as nat));
        } else {
            assert(old(out)@.push(digit_char((m % 10) as int)) =~= old(out)@ + spelled_nat(m as nat));
        }
    }
}

/// An `i64` in decimal.
pub fn decimal_string(n: i64) -> (r: String)
    ensures
        r@ == spelled(n as int),
{
    let mut out = String::new();
    if n < 0 {
        push_char(&mut out, '-');
        let m: u64 = if n == i64::MIN { 9_223_372_036_854_775_808u64 } else { (-n) as u64 };
        push_decimal(&mut out, m);
    } else {
        push_decimal(&mut out, n as u64);
    }
    out
}

/// How common the *word* is, as an SQL expression over a `vocabulary` row
/// aliased `alias`: the best corpus rank over every spelling the entry carries
/// for this reading, the form's own rank included. `NULL` with no corpus list;
/// the form's own rank alone with no lexeme dictionary. The ids are written in
/// as decimals.
pub open spec fn rank_sql(lex: Option<i64>, corpus: Option<i64>, alias: Seq<char>) -> Seq<char> {
    match corpus {
        None => "NULL"@,
        Some(cid) => {
            let c = spelled(cid as int);
            let l = match lex { Some(x) => spelled(x as int), None => Seq::empty() };
            let hw = alias + ".headword"@;
            let rd = "CASE WHEN "@ + alias + ".reading = '' THEN "@ + hw + " ELSE "@ + alias + ".reading END"@;
            let form = "(SELECT MIN(f.frequency) FROM dictionary_frequency f WHERE f.dictionary_id = "@ + c + " AND f.term = "@ + hw + " AND (f.reading = "@ + rd + " OR f.reading = ''))"@;
            let entry = "(SELECT j0.sequence FROM dictionary_entries j0 WHERE j0.dictionary_id = "@ + l + " AND j0.term = "@ + hw + " AND COALESCE(NULLIF(j0.reading, ''), j0.term) = "@ + rd + " ORDER BY j0.score DESC LIMIT 1)"@;
            let siblings = "(SELECT MIN(f.frequency) FROM dictionary_entries j JOIN dictionary_frequency f ON f.dictionary_id = "@ + c + " AND f.term = j.term AND (f.reading = "@ + rd + " OR f.reading = '') WHERE j.dictionary_id = "@ + l + " AND j.sequence = "@ + entry + " AND COALESCE(NULLIF(j.reading, ''), j.term) = "@ + rd + ")"@;
            let one_reading = "(SELECT MIN(f.frequency) FROM dictionary_entries j JOIN dictionary_frequency f ON f.dictionary_id = "@ + c + " AND f.term = j.term WHERE j.dictionary_id = "@ + l + " AND j.sequence = "@ + entry + " AND (SELECT COUNT(DISTINCT COALESCE(NULLIF(j2.reading, ''), j2.term)) FROM dictionary_entries j2 WHERE j2.dictionary_id = "@ + l + " AND j2.sequence = j.sequence) = 1)"@;
            match lex {
                None => form,
                Some(_) => "(SELECT MIN(r) FROM (SELECT "@ + form + " AS r UNION ALL SELECT "@ + siblings + " UNION ALL SELECT "@ + one_reading + "))"@,
            }
        },
    }
}

/// [`rank_sql`], built: what the triage queue orders by and the browser ranks
/// by, so both ask the one question.
pub fn word_rank_sql(lex: Option<i64>, corpus: Option<i64>, alias: &str) -> (r: String)
    ensures
        r@ == rank_sql(lex, corpus, alias@),
{
    let cid = match corpus {
        None => return "NULL".to_owned(),
        Some(cid) => cid,
    };
    let c = decimal_string(cid);
    let l = match lex {
        Some(x) => decimal_string(x),
        None => String::new(),
    };
    let alias = alias.to_owned();
    let hw = concat(alias.as_str(), ".headword");
    let rd = concat("CASE WHEN ", alias.as_str());
    let rd = concat(rd.as_str(), ".reading = '' THEN ");
    let rd = concat(rd.as_str(), hw.as_str());
    let rd = concat(rd.as_str(), " ELSE ");
    let rd = concat(rd.as_str(), alias.as_str());
    let rd = concat(rd.as_str(), ".reading END");
    let form = concat("(SELECT MIN(f.frequency) FROM dictionary_frequency f WHERE f.dictionary_id = ", c.as_str());
    let form = concat(form.as_str(), " AND f.term = ");
    let form = concat(form.as_str(), hw.as_str());
    let form = concat(form.as_str(), " AND (f.reading = ");
    let form = concat(form.as_str(), rd.as_str());
    let form = concat(form.as_str(), " OR f.reading = ''))");
    let entry = concat("(SELECT j0.sequence FROM dictionary_entries j0 WHERE j0.dictionary_id = ", l.as_str());
    let entry = concat(entry.as_str(), " AND j0.term = ");
    let entry = concat(entry.as_str(), hw.as_str());
    let entry = concat(entry.as_str(), " AND COALESCE(NULLIF(j0.reading, ''), j0.term) = ");
    let entry = concat(entry.as_str(), rd.as_str());
    let entry = concat(entry.as_str(), " ORDER BY j0.score DESC LIMIT 1)");
    let siblings = concat("(SELECT MIN(f.frequency) FROM dictionary_entries j JOIN dictionary_frequency f ON f.dictionary_id = ", c.as_str());
    let siblings = concat(siblings.as_str(), " AND f.term = j.term AND (f.reading = ");
    let siblings = concat(siblings.as_str(), rd.as_str());
    let siblings = concat(siblings.as_str(), " OR f.reading = '') WHERE j.dictionary_id = ");
    let siblings = concat(siblings.as_str(), l.as_str());
    let siblings = concat(siblings.as_str(), " AND j.sequence = ");
    let siblings = concat(siblings.as_str(), entry.as_str());
    let siblings = concat(siblings.as_str(), " AND COALESCE(NULLIF(j.reading, ''), j.term) = ");
    let siblings = concat(siblings.as_str(), rd.as_str());
    let siblings = concat(siblings.as_str(), ")");
    let one_reading = concat("(SELECT MIN(f.frequency) FROM dictionary_entries j JOIN dictionary_frequency f ON f.dictionary_id = ", c.as_str());
    let one_reading = concat(one_reading.as_str(), " AND f.term = j.term WHERE j.dictionary_id = ");
    let one_reading = concat(one_reading.as_str(), l.as_str());
    let one_reading = concat(one_reading.as_str(), " AND j.sequence = ");
    let one_reading = concat(one_reading.as_str(), entry.as_str());
    let one_reading = concat(one_reading.as_str(), " AND (SELECT COUNT(DISTINCT COALESCE(NULLIF(j2.reading, ''), j2.term)) FROM dictionary_entries j2 WHERE j2.dictionary_id = ");
    let one_reading = concat(one_reading.as_str(), l.as_str());
    let one_reading = concat(one_reading.as_str(), " AND j2.sequence = j.sequence) = 1)");
    match lex {
        None => form,
        Some(_) => {
        let whole = concat("(SELECT MIN(r) FROM (SELECT ", form.as_str());
        let whole = concat(whole.as_str(), " AS r UNION ALL SELECT ");
        let whole = concat(whole.as_str(), siblings.as_str());
        let whole = concat(whole.as_str(), " UNION ALL SELECT ");
        let whole = concat(whole.as_str(), one_reading.as_str());
        let whole = concat(whole.as_str(), "))");
            whole
        },
    }
}

} // verus!
