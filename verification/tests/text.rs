use jp_core::text::chars::count_chars;
use jp_core::text::kana::{is_all_hiragana, is_all_kana, is_all_katakana, morae, to_hiragana};
use jp_core::text::kanji::is_kanji;

#[test]
fn drops_punctuation_and_whitespace() {
    assert_eq!(count_chars("「ねえ、聞いてる？」"), 6);
    assert_eq!(count_chars("……そうか。"), 3);
    assert_eq!(count_chars("　 \n"), 0);
}

#[test]
fn keeps_kana_kanji_and_alphanumerics() {
    assert_eq!(count_chars("漢字かなカナ"), 6);
    assert_eq!(count_chars("ＡＢ12ab"), 6);
    assert_eq!(count_chars("々〆〇ゝヽー"), 5); // ヽ (U+30FD) is outside ァ-ヺ
    assert_eq!(count_chars("ﾊﾛｰ"), 3);
}

#[test]
fn counts_by_codepoint_not_byte() {
    assert_eq!(count_chars("𠮟る"), 2); // surrogate-pair kanji from Ext B
}

#[test]
fn beats_of_speech() {
    assert_eq!(morae("きょう"), 2);
    assert_eq!(morae("がっこう"), 4);
    assert_eq!(morae("ん"), 1);
}

#[test]
fn katakana_becomes_hiragana() {
    assert_eq!(to_hiragana("ヨム"), "よむ");
    assert_eq!(to_hiragana("シンパイ"), "しんぱい");
    // Small kana and ヶ are inside the shifted range.
    assert_eq!(to_hiragana("ジッカ"), "じっか");
}

#[test]
fn everything_else_survives() {
    assert_eq!(to_hiragana("読む"), "読む");
    assert_eq!(to_hiragana("よむ"), "よむ");
    // A long-vowel mark in a katakana reading is part of the reading.
    assert_eq!(to_hiragana("コーヒー"), "こーひー");
    assert_eq!(to_hiragana("ABC 123"), "ABC 123");
}

#[test]
fn kana_only_words_are_recognized() {
    assert!(is_all_kana("ください"));
    assert!(is_all_kana("コーヒー"));
    assert!(!is_all_kana("読む"));
    assert!(!is_all_kana(""));
}

#[test]
fn one_alphabet_or_the_other() {
    assert!(is_all_katakana("コーヒー"));
    assert!(!is_all_katakana("ざる"));
    assert!(!is_all_katakana("ハイ会社"));
    assert!(is_all_hiragana("ざる"));
    assert!(!is_all_hiragana("ザル"));
}

#[test]
fn classifies_kanji_against_kana_and_marks() {
    assert!(is_kanji('漢'));
    assert!(!is_kanji('か'));
    assert!(!is_kanji('ー'));
    assert!(!is_kanji('々'));
}

#[test]
fn folding_twice_is_folding_once() {
    for s in ["ヨム", "コーヒー", "ヴァ", "読む"] {
        assert_eq!(to_hiragana(&to_hiragana(s)), to_hiragana(s));
    }
}

/// Every kanji is a counted character, compatibility ideographs included.
#[test]
fn a_compatibility_ideograph_the_count_drops_is_not_a_kanji() {
    assert!(!jp_core::text::kanji::is_kanji('\u{F900}'));
    assert!(jp_core::text::kanji::is_kanji('\u{FA11}'));
    assert!(jp_core::text::chars::is_counted('\u{FA11}'));
}
