use std::collections::HashSet;

use jp_core::knowledge::work_names::{is_japanese, names_for_tokenizer, parts};

fn strings(v: &[&str]) -> Vec<String> {
    v.iter().map(|s| s.to_string()).collect()
}

#[test]
fn a_full_name_gives_its_halves() {
    assert_eq!(parts("ウィリアム・シェイクスピア"), strings(&["ウィリアム", "シェイクスピア"]));
    assert_eq!(parts("オリヴィア＝ベリー"), strings(&["オリヴィア", "ベリー"]));
}

#[test]
fn one_character_is_never_a_part() {
    assert_eq!(parts("ピーチ・ザ・ビッチ"), strings(&["ピーチ", "ビッチ"]));
    assert!(parts("凪").is_empty());
    assert_eq!(parts("世凪"), strings(&["世凪"]));
}

#[test]
fn a_romanized_name_is_not_handed_over() {
    let got: HashSet<String> = names_for_tokenizer(&strings(&["Master", "世凪", "オリヴィア・ベリー"]))
        .into_iter()
        .collect();
    let want: HashSet<String> = strings(&["世凪", "オリヴィア・ベリー", "オリヴィア", "ベリー"]).into_iter().collect();
    assert_eq!(got, want);
}

#[test]
fn each_name_is_handed_over_once() {
    let got = names_for_tokenizer(&strings(&["世凪", "世凪", "ベリー", "オリヴィア・ベリー"]));
    let distinct: HashSet<&String> = got.iter().collect();
    assert_eq!(distinct.len(), got.len());
    // 世凪, ベリー, オリヴィア and オリヴィア・ベリー.
    assert_eq!(got.len(), 4);
}

#[test]
fn kana_and_kanji_are_japanese() {
    assert!(is_japanese('凪'));
    assert!(is_japanese('ベ'));
    assert!(is_japanese('な'));
    assert!(!is_japanese('M'));
}
