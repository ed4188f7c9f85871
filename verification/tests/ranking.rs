use jp_core::knowledge::ranking::{decimal_string, word_rank_sql};

#[test]
fn an_id_is_written_in_decimal() {
    for n in [0i64, 7, 10, 2002270, -42, i64::MAX, i64::MIN] {
        assert_eq!(decimal_string(n), n.to_string());
    }
}

/// With no corpus list there is no rank; with no lexeme dictionary the form's
/// own rank is all there is.
#[test]
fn the_rank_expression_follows_what_is_loaded() {
    assert_eq!(word_rank_sql(Some(2), None, "v"), "NULL");
    assert_eq!(
        word_rank_sql(None, Some(3), "v"),
        "(SELECT MIN(f.frequency) FROM dictionary_frequency f WHERE f.dictionary_id = 3 AND f.term = v.headword \
         AND (f.reading = CASE WHEN v.reading = '' THEN v.headword ELSE v.reading END OR f.reading = ''))"
    );
    let full = word_rank_sql(Some(12), Some(3), "vocabulary");
    assert!(full.starts_with("(SELECT MIN(r) FROM (SELECT (SELECT MIN(f.frequency)"));
    assert!(full.contains("j0.dictionary_id = 12 AND j0.term = vocabulary.headword"));
    assert!(full.ends_with(") = 1)))"));
}
