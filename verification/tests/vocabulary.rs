use jp_core::knowledge::vocabulary::{preselects_known, repair_step, RepairStep, Status, Term, VocabRow};

#[test]
fn a_reading_is_normalized_to_hiragana() {
    assert_eq!(Term::new("読む", "ヨム").reading, "よむ");
    assert_eq!(Term::new("読む", "よむ").reading, "よむ");
}

#[test]
fn a_kana_headword_does_not_store_its_reading_twice() {
    let t = Term::new("ください", "クダサイ");
    assert_eq!(t.reading, "");
    // ...but it still displays one.
    assert_eq!(t.display_reading(), "ください");
}

#[test]
fn homographs_are_separate_terms() {
    assert_ne!(Term::new("辛い", "カライ"), Term::new("辛い", "ツライ"));
}

/// The two halves of the preselect rule, and why the lookup half exists.
#[test]
fn a_word_ever_looked_up_is_never_preselected_known() {
    let mut row = VocabRow {
        term: Term::new("憂鬱", "ゆううつ"),
        pos: None,
        status: Status::New,
        mined: false,
        encounter_count: 47,
        lookup_count: 0,
        in_master: true,
        in_name: false,
        in_reference: false,
        freq_rank: None,
    };
    assert!(preselects_known(&row, 3), "met often, never looked up");

    // One lookup is enough. 47 encounters cannot outvote it.
    row.lookup_count = 1;
    assert!(!preselects_known(&row, 3));

    // And the encounter floor still applies on its own.
    row.lookup_count = 0;
    row.encounter_count = 2;
    assert!(!preselects_known(&row, 3));
}

#[test]
fn normalizing_a_normalized_key_changes_nothing() {
    let once = Term::new("読む", "ヨム");
    let twice = Term::new(once.headword.clone(), &once.reading);
    assert_eq!(once, twice);
    let kana = Term::new("コーヒー", "コーヒー");
    assert_eq!(Term::new(kana.headword.clone(), &kana.reading), kana);
}

#[test]
fn every_status_reads_back_as_itself() {
    for s in [Status::New, Status::Known, Status::Unknown, Status::Blacklisted] {
        assert_eq!(Status::parse(s.as_str()), s);
    }
    assert_eq!(Status::parse("mystery"), Status::New);
}

#[test]
fn a_kana_row_without_a_reading_is_the_convention() {
    assert!(matches!(repair_step("ください", &vec!["ください".to_string()]), RepairStep::Convention));
}

#[test]
fn a_kanji_row_with_one_reading_is_rekeyed() {
    match repair_step("冪等性", &vec!["ベキトウセイ".to_string()]) {
        RepairStep::Rekey(t) => {
            assert_eq!(t.headword, "冪等性");
            assert_eq!(t.reading, "べきとうせい");
        }
        other => panic!("expected a rekey, got {other:?}"),
    }
}

#[test]
fn a_kanji_row_with_no_reading_or_several_is_left_alone() {
    assert!(matches!(repair_step("冪等性", &Vec::new()), RepairStep::Unresolved));
    assert!(matches!(
        repair_step("空", &vec!["そら".to_string(), "から".to_string()]),
        RepairStep::Unresolved
    ));
}

#[test]
fn a_reading_that_normalizes_to_nothing_moves_nothing() {
    assert!(matches!(repair_step("空", &vec![String::new()]), RepairStep::Unchanged));
}

#[test]
fn a_row_is_known_if_asserted_or_mined() {
    let mut row = VocabRow {
        term: Term::new("憂鬱", "ゆううつ"),
        pos: None,
        status: Status::New,
        mined: false,
        encounter_count: 0,
        lookup_count: 0,
        in_master: false,
        in_name: false,
        in_reference: false,
        freq_rank: None,
    };
    assert!(!row.is_known());
    assert!(!row.is_word());
    row.mined = true;
    assert!(row.is_known());
    row.in_reference = true;
    assert!(row.is_word());
}

/// A borrowed spelling is keyed as an owned one is.
#[test]
fn a_borrowed_spelling_is_keyed_alike() {
    let t = jp_core::knowledge::vocabulary::Term::keyed("読む", "ヨム");
    assert_eq!((t.headword.as_str(), t.reading.as_str()), ("読む", "よむ"));
    assert_eq!(t, jp_core::knowledge::vocabulary::Term::new("読む", "ヨム"));
    assert_eq!(jp_core::knowledge::vocabulary::Term::keyed("つらい", "ツライ").reading, "");
}
