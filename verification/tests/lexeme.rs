use jp_core::knowledge::lexeme::{
    count_lexemes, covers, group_forms, redundant_among, resolve, KnownForm, Lexeme,
};
use jp_core::knowledge::vocabulary::Term;

/// Known forms the way the join hands them over: one row per `(form, entry id)`.
fn forms(rows: &[(&str, &str, Option<i64>)]) -> Vec<KnownForm> {
    let rows: Vec<(String, String, Option<i64>)> = rows
        .iter()
        .map(|(h, r, s)| {
            let t = Term::new(*h, r);
            (t.headword, t.reading, *s)
        })
        .collect();
    group_forms(&rows)
}

fn lexemes(rows: &[(&str, &str, Option<i64>)]) -> i64 {
    count_lexemes(&resolve(&forms(rows))).lexemes
}

#[test]
fn two_spellings_of_one_entry_are_one_word() {
    let rows = [
        ("零れ落ちる", "こぼれおちる", Some(2002270)),
        ("こぼれ落ちる", "こぼれおちる", Some(2002270)),
    ];
    let c = count_lexemes(&resolve(&forms(&rows)));
    assert_eq!(c.forms, 2, "both rows still exist and keep their own counts");
    assert_eq!(c.lexemes, 1, "but they are one word");
}

#[test]
fn a_homograph_stays_two_words() {
    assert_eq!(
        lexemes(&[("辛い", "からい", Some(1365850)), ("辛い", "つらい", Some(1365860))]),
        2
    );
}

#[test]
fn a_kana_spelling_folds_into_the_kanji_ones_that_agree() {
    let rows = [
        ("叔父", "おじ", Some(1607070)),
        ("伯父", "おじ", Some(1607070)),
        ("おじ", "おじ", None),
    ];
    let c = count_lexemes(&resolve(&forms(&rows)));
    assert_eq!(c.forms, 3);
    assert_eq!(c.lexemes, 1, "叔父 / 伯父 / おじ are one word");
}

#[test]
fn a_kana_form_beats_its_own_entry_id() {
    assert_eq!(
        lexemes(&[("辛い", "からい", Some(1365850)), ("からい", "からい", Some(1609860))]),
        1
    );
}

#[test]
fn a_reading_shared_by_different_words_does_not_collapse() {
    assert_eq!(
        lexemes(&[
            ("層", "そう", Some(1400700)),
            ("沿う", "そう", Some(1385600)),
            ("そう", "そう", Some(2137720)),
        ]),
        3,
        "the adverb そう is its own word, not a spelling of 層"
    );
}

#[test]
fn a_term_the_reference_dictionary_misses_still_counts_once() {
    assert_eq!(
        lexemes(&[("叔父", "おじ", Some(1607070)), ("腹を探る", "はらをさぐる", None)]),
        2,
        "nothing is dropped for being unresolvable"
    );
}

#[test]
fn the_count_does_not_depend_on_import_order() {
    let forward = [
        ("叔父", "おじ", Some(1607070)),
        ("伯父", "おじ", Some(1607070)),
        ("おじ", "おじ", None),
        ("辛い", "つらい", Some(1365860)),
        ("つらい", "つらい", None),
    ];
    let mut reverse = forward;
    reverse.reverse();
    assert_eq!(lexemes(&forward), lexemes(&reverse));
    assert_eq!(lexemes(&forward), 2, "おじ-the-uncle and 辛い/つらい");
}

#[test]
fn an_ambiguous_entry_id_is_not_used() {
    // Two ids for one form: the dictionary cannot decide, so the form stands
    // alone — and a second form sharing one of the ids is a separate word.
    let rows = [
        ("御免", "ごめん", Some(1)),
        ("御免", "ごめん", Some(2)),
        ("ご免", "ごめん", Some(1)),
    ];
    let grouped = forms(&rows);
    assert_eq!(grouped.len(), 2);
    assert_eq!(grouped[0].sequences, vec![1, 2]);
    let resolved = resolve(&grouped);
    assert!(matches!(&resolved[0].1, Lexeme::Form(h, _) if h == "御免"));
    assert!(matches!(resolved[1].1, Lexeme::Entry(1)));
}

#[test]
fn rows_of_one_form_are_regrouped_once() {
    let rows = [
        ("空", "そら", Some(5)),
        ("空", "から", None),
        ("空", "そら", Some(5)),
        ("空", "そら", None),
    ];
    let grouped = forms(&rows);
    assert_eq!(grouped.len(), 2);
    assert_eq!(grouped[0].term.reading, "そら");
    assert_eq!(grouped[0].sequences, vec![5]);
    assert!(grouped[1].sequences.is_empty());
}

#[test]
fn redundancy_runs_from_the_harder_spelling_to_the_easier() {
    let known = vec![Term::new("零れ落ちる", "こぼれおちる")];
    let easier = Term::new("こぼれ落ちる", "こぼれおちる");
    assert_eq!(redundant_among(&known, &vec![easier.clone()]), vec![easier]);
}

#[test]
fn redundancy_does_not_run_the_other_way() {
    let known = vec![Term::new("こぼれ落ちる", "こぼれおちる")];
    let harder = Term::new("零れ落ちる", "こぼれおちる");
    assert!(redundant_among(&known, &vec![harder]).is_empty());
}

#[test]
fn a_spelling_of_another_reading_is_not_covered() {
    let known = vec![Term::new("辛い", "からい")];
    let other = Term::new("つらい", "つらい");
    assert!(redundant_among(&known, &vec![other]).is_empty());
    let kana = Term::new("からい", "からい");
    assert_eq!(redundant_among(&known, &vec![kana.clone()]), vec![kana]);
}

#[test]
fn a_form_never_covers_itself() {
    let t = Term::new("辛い", "からい");
    assert!(!covers(&t, &t));
    assert!(covers(&Term::new("零れ落ちる", "こぼれおちる"), &Term::new("こぼれ落ちる", "こぼれおちる")));
}

#[test]
fn a_lone_form_is_its_own_lexeme() {
    let t = Term::new("腹を探る", "はらをさぐる");
    assert!(matches!(Lexeme::of(&t), Lexeme::Form(h, r) if h == "腹を探る" && r == "はらをさぐる"));
}

/// A spelling is settled only under the reading it was known by.
#[test]
fn a_spelling_read_another_way_is_not_covered() {
    let known = Term::new("零れ落ちる", "こぼれおちる");
    assert!(!covers(&known, &Term::new("こぼれ落ちる", "ちがう")));
}
