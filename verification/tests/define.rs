use std::collections::HashSet;

use jp_core::define::{
    expansion_candidates, expansion_terms, expansions, gather, in_page_order, longest_first, pitch_for,
    reader_frequency, senses_for, titled, Found, Source, CORPUS_FREQUENCY,
};
use jp_core::knowledge::dictionaries::{Dictionary, Role};
use jp_core::knowledge::vocabulary::{Status, Term, VocabRow};

fn dict(id: i64, title: &str, role: Role) -> Dictionary {
    Dictionary { id, title: title.to_string(), source_path: format!("/d/{id}.zip"), role, priority: id }
}

fn strings(v: &[&str]) -> Vec<String> {
    v.iter().map(|s| s.to_string()).collect()
}

fn set(v: &[String]) -> HashSet<String> {
    v.iter().cloned().collect()
}

#[test]
fn the_reader_list_is_the_first_frequency_dictionary_installed() {
    let dicts = vec![
        dict(5, "Jiten", Role::Frequency),
        dict(3, "BCCWJ", Role::Frequency),
        dict(1, "Sankoku", Role::Master),
    ];
    assert_eq!(reader_frequency(&dicts), Some(1));
    assert_eq!(titled(&dicts, CORPUS_FREQUENCY), Some(1));
    assert_eq!(reader_frequency(&vec![dict(1, "Sankoku", Role::Master)]), None);
}

#[test]
fn a_listed_reading_narrows_the_senses() {
    let entries = vec![
        ("そら".to_string(), strings(&["sky"])),
        ("から".to_string(), strings(&["empty"])),
    ];
    let only = senses_for(&entries, Some("から"));
    assert_eq!(only.len(), 1);
    assert_eq!(only[0].definitions, strings(&["empty"]));
    assert_eq!(senses_for(&entries, None).len(), 2);
}

#[test]
fn an_unlisted_reading_shows_every_sense() {
    let entries = vec![
        ("そら".to_string(), strings(&["sky"])),
        ("から".to_string(), strings(&["empty"])),
    ];
    let all = senses_for(&entries, Some("くう"));
    assert_eq!(all.iter().map(|s| s.reading.as_str()).collect::<Vec<_>>(), ["そら", "から"]);
}

fn source(title: &str) -> Source {
    Source { dictionary: title.to_string(), slug: title.to_lowercase(), senses: Vec::new() }
}

#[test]
fn the_master_page_comes_first_then_the_second_page() {
    let dicts = vec![
        dict(1, "明鏡", Role::Reference),
        dict(2, "Jitendex", Role::Reference),
        dict(3, "Sankoku", Role::Master),
        dict(4, "大辞林", Role::Reference),
    ];
    let sources = vec![source("明鏡"), source("Jitendex"), source("Sankoku"), source("大辞林")];
    let ordered = in_page_order(&sources, &dicts);
    assert_eq!(
        ordered.iter().map(|s| s.dictionary.as_str()).collect::<Vec<_>>(),
        ["Sankoku", "Jitendex", "明鏡", "大辞林"]
    );
}

#[test]
fn pitch_is_narrowed_to_the_reading_asked_for() {
    let entries = vec![("そら".to_string(), vec![1]), ("から".to_string(), vec![2])];
    let p = pitch_for(&entries, Some("そら"));
    assert_eq!(p.len(), 1);
    assert_eq!(p[0].positions, vec![1]);
    assert_eq!(pitch_for(&entries, None).len(), 2);
    assert!(pitch_for(&entries, Some("くう")).is_empty());
}

#[test]
fn a_scan_offers_every_prefix_from_two_characters() {
    let got = expansion_candidates("経年劣化が進む", &Vec::new());
    // The first character is a kanji, so a single kanji counts too.
    for want in ["経", "経年", "経年劣化", "経年劣化が進む"] {
        assert!(got.contains(&want.to_string()), "{want}");
    }
    let kana = expansion_candidates("しびれを切らした", &Vec::new());
    assert!(!kana.contains(&"し".to_string()), "a single kana is never offered");
    assert!(kana.contains(&"しび".to_string()));
}

#[test]
fn a_scan_reaches_ten_characters() {
    let got = expansion_candidates("あいうえおかきくけこさしすせそ", &Vec::new());
    assert!(got.contains(&"あいうえおかきくけこ".to_string()));
    assert!(!got.contains(&"あいうえおかきくけこさ".to_string()));
    assert_eq!(got.len(), 9);
}

#[test]
fn deinflected_forms_and_the_other_alphabet_are_offered_once() {
    let forms = strings(&["しびれを切らす", "し"]);
    let got = expansion_candidates("アレは", &forms);
    assert!(got.contains(&"しびれを切らす".to_string()));
    assert!(!got.contains(&"し".to_string()), "a one-character form is not offered");
    assert!(got.contains(&"アレ".to_string()));
    assert!(got.contains(&"あれ".to_string()), "アレ means あれ");
    assert!(got.contains(&"あれは".to_string()));
    assert_eq!(set(&got).len(), got.len(), "each once");
}

#[test]
fn rows_gather_into_one_entry_per_spelling() {
    let mut found = Vec::new();
    gather(
        &mut found,
        &vec![
            ("素振り".to_string(), "そぶり".to_string()),
            ("素振り".to_string(), "すぶり".to_string()),
            ("素振".to_string(), "そぶり".to_string()),
        ],
        "Jitendex",
    );
    gather(&mut found, &vec![("素振り".to_string(), "そぶり".to_string()), ("あれ".to_string(), String::new())], "明鏡");
    assert_eq!(found.len(), 3);
    assert_eq!(found[0].term, "素振り");
    assert_eq!(found[0].readings, strings(&["そぶり", "すぶり"]));
    assert_eq!(found[0].dictionaries, strings(&["Jitendex", "明鏡"]));
    assert!(found[2].readings.is_empty(), "an empty reading is not a reading");
}

fn found(term: &str, readings: &[&str]) -> Found {
    Found { term: term.to_string(), readings: strings(readings), dictionaries: strings(&["Jitendex"]) }
}

#[test]
fn the_longest_spelling_comes_first_and_ties_keep_their_order() {
    let sorted = longest_first(&vec![found("経年", &[]), found("劣化", &[]), found("経年劣化", &[]), found("経", &[])]);
    assert_eq!(
        sorted.iter().map(|f| f.term.as_str()).collect::<Vec<_>>(),
        ["経年劣化", "経年", "劣化", "経"]
    );
}

#[test]
fn each_reading_is_its_own_candidate_with_its_ledger_status() {
    let found = vec![found("素振り", &["そぶり", "すぶり"]), found("あれ", &[])];
    let keys = strings(&["素振り"]);
    let terms = expansion_terms(&found, &keys);
    assert_eq!(terms, vec![
        Term::new("素振り", "そぶり"),
        Term::new("素振り", "すぶり"),
        Term::new("あれ", ""),
    ]);
    let rows = vec![VocabRow {
        term: Term::new("素振り", "すぶり"),
        pos: None,
        status: Status::Known,
        mined: false,
        encounter_count: 3,
        lookup_count: 0,
        in_master: true,
        in_name: false,
        in_reference: false,
        freq_rank: None,
    }];
    let got = expansions(&found, &keys, &rows);
    assert_eq!(got.len(), 3);
    assert_eq!((got[0].reading.as_str(), got[0].status.as_str()), ("そぶり", "new"));
    assert_eq!((got[1].reading.as_str(), got[1].status.as_str()), ("すぶり", "known"));
    // No key for the second spelling: it keys on itself.
    assert_eq!((got[2].key.as_str(), got[2].reading.as_str()), ("あれ", ""));
}

/// Priority, not install order, decides which frequency list is the reader's.
#[test]
fn the_reader_list_is_chosen_by_priority() {
    let mut jiten = dict(5, "Jiten", Role::Frequency);
    jiten.priority = 0;
    let dicts = vec![dict(3, "BCCWJ", Role::Frequency), jiten];
    assert_eq!(reader_frequency(&dicts), Some(1));
}

/// A title becomes a class name: lower case, and a hyphen for anything that
/// is not a letter or a digit.
#[test]
fn a_title_becomes_a_css_class() {
    assert_eq!(jp_core::define::css_slug("Jitendex.org [2024]"), "jitendex-org--2024-");
    assert_eq!(jp_core::define::css_slug("三省堂 国語"), "三省堂-国語");
}
