use jp_core::tokenize::trace::Trace;
use jp_core::tokenize::{
    counts_as_word, drop_stutters, is_content_word, is_figures, is_one_mora, strip_emphatic_sokuon,
    MasterWords, Token,
};

fn affix(surface: &str, base: &str, reading: &str, pos: &str) -> Token {
    Token {
        surface: surface.to_string(),
        base_form: base.to_string(),
        reading: reading.to_string(),
        pos: pos.to_string(),
        proper_noun: false,
        subsidiary: false,
        inflected: false,
    }
}

/// The master as far as these tests are concerned: 達/たち, 鬼/き, ちゃん.
fn master() -> MasterWords {
    MasterWords::new(
        ["達", "鬼", "ちゃん"].iter().map(|s| s.to_string()).collect(),
        &[
            ("達".to_string(), "たち".to_string()),
            ("鬼".to_string(), "き".to_string()),
            ("鬼".to_string(), "おに".to_string()),
        ],
    )
}

#[test]
fn a_number_in_figures_is_not_vocabulary() {
    let m = master();
    assert!(!counts_as_word(&affix("1", "1", "イチ", "名詞"), &m));
    assert!(!counts_as_word(&affix("２０", "20", "ニレイ", "名詞"), &m));
    // Kanji numerals are ordinary terms and reach the ledger as ones.
    assert!(counts_as_word(&affix("一", "一", "イチ", "名詞"), &m));
}

#[test]
fn is_content_word_matches_nouns() {
    assert!(is_content_word("名詞"));
}

#[test]
fn is_content_word_matches_verbs() {
    assert!(is_content_word("動詞"));
}

#[test]
fn is_content_word_matches_adjectives() {
    assert!(is_content_word("形容詞"));
}

#[test]
fn is_content_word_matches_adjectival_nouns() {
    assert!(is_content_word("形状詞"));
}

#[test]
fn is_content_word_matches_adverbs() {
    assert!(is_content_word("副詞"));
}

#[test]
fn a_listed_suffix_counts_as_a_word() {
    let m = master();
    assert!(counts_as_word(&affix("達", "達", "タチ", "接尾辞"), &m));
    assert!(counts_as_word(&affix("鬼", "鬼", "キ", "接尾辞"), &m));
}

#[test]
fn a_kana_suffix_matches_on_the_headword_alone() {
    assert!(counts_as_word(&affix("ちゃん", "ちゃん", "チャン", "接尾辞"), &master()));
}

#[test]
fn an_unlisted_suffix_is_still_dropped() {
    assert!(!counts_as_word(&affix("げ", "げ", "ゲ", "接尾辞"), &master()));
}

#[test]
fn a_listed_headword_under_the_wrong_reading_is_dropped() {
    assert!(!counts_as_word(&affix("鬼", "鬼", "シコ", "接尾辞"), &master()));
}

#[test]
fn a_listed_particle_counts_as_a_word() {
    let m = MasterWords::new(
        ["は".to_string()].into_iter().collect(),
        &[("は".to_string(), "は".to_string())],
    );
    assert!(counts_as_word(&affix("は", "は", "ハ", "助詞"), &m));
}

#[test]
fn an_unlisted_particle_is_still_dropped() {
    assert!(!counts_as_word(&affix("は", "は", "ハ", "助詞"), &master()));
}

#[test]
fn a_pronoun_counts_as_a_word() {
    assert!(is_content_word("代名詞"));
    assert!(counts_as_word(
        &affix("彼女", "彼女", "カノジョ", "代名詞"),
        &MasterWords::new(Vec::new(), &[])
    ));
}

#[test]
fn one_mora_is_a_kana_and_at_most_a_small_y() {
    assert!(is_one_mora("ぐ"));
    assert!(is_one_mora("ちょ"));
    assert!(is_one_mora("しゃ"));
    assert!(!is_one_mora("いつ"));
    assert!(!is_one_mora("うかがう"));
    assert!(!is_one_mora(""));
}

#[test]
fn an_emphatic_sokuon_is_stripped_but_a_geminate_is_not() {
    assert_eq!(strip_emphatic_sokuon("ごめんなさいっ"), "ごめんなさい");
    assert_eq!(strip_emphatic_sokuon("「早くっ」"), "「早く」");
    // A run is one mark, not several.
    assert_eq!(strip_emphatic_sokuon("羽咲ちゃんっっ、"), "羽咲ちゃん、");
    assert_eq!(strip_emphatic_sokuon("ですっ……"), "です……");
    // Doubling a consonant: the っ is the word.
    assert_eq!(strip_emphatic_sokuon("行ったちょっと"), "行ったちょっと");
    assert_eq!(strip_emphatic_sokuon("待って"), "待って");
    // Across the okurigana into a kanji, which is still a geminate.
    assert_eq!(strip_emphatic_sokuon("突っ込む"), "突っ込む");
    assert_eq!(strip_emphatic_sokuon("ぶっ殺す"), "ぶっ殺す");
    assert_eq!(strip_emphatic_sokuon("真っ黒"), "真っ黒");
}

/// Every character removed is a っ, so what is left is still an in-order
/// subsequence of the original.
#[test]
fn stripping_leaves_a_subsequence_of_the_original() {
    for line in [
        "「まずいですっ」",
        "「は、はいっ……」",
        "行ったっ",
        "ちょっと待ってっ",
        "力にっっ",
    ] {
        let stripped = strip_emphatic_sokuon(line);
        let mut original = line.chars();
        assert!(
            stripped.chars().all(|c| original.any(|o| o == c)),
            "{stripped:?} is not a subsequence of {line:?}"
        );
    }
}

fn surfaces(tokens: Vec<Token>) -> Vec<String> {
    tokens.into_iter().map(|t| t.surface).collect()
}

#[test]
fn a_stammer_loses_its_fragment() {
    let stream = vec![
        affix("そ", "そう", "ソ", "副詞"),
        affix("、", "、", "、", "補助記号"),
        affix("そう", "そう", "ソウ", "副詞"),
    ];
    assert_eq!(surfaces(drop_stutters(stream, &mut Trace::off())), ["そう"]);
}

#[test]
fn a_repeated_stammer_loses_every_fragment() {
    let stream = vec![
        affix("ト", "と", "ト", "助詞"),
        affix("、", "、", "、", "補助記号"),
        affix("ト", "と", "ト", "助詞"),
        affix("、", "、", "、", "補助記号"),
        affix("トラウマ", "トラウマ", "トラウマ", "名詞"),
    ];
    assert_eq!(surfaces(drop_stutters(stream, &mut Trace::off())), ["トラウマ"]);
}

#[test]
fn a_stammer_is_caught_through_the_reading_too() {
    let stream = vec![
        affix("ち", "ちっ", "チ", "感動詞"),
        affix("、", "、", "、", "補助記号"),
        affix("違っ", "違う", "チガウ", "動詞"),
    ];
    assert_eq!(surfaces(drop_stutters(stream, &mut Trace::off())), ["違っ"]);
}

#[test]
fn a_reading_that_does_not_repeat_is_not_a_stammer() {
    let stream = vec![
        affix("は", "は", "ハ", "助詞"),
        affix("、", "、", "、", "補助記号"),
        affix("羽咲", "羽咲", "ウサ", "名詞"),
    ];
    assert_eq!(
        surfaces(drop_stutters(stream, &mut Trace::off())),
        ["は", "、", "羽咲"]
    );
}

#[test]
fn a_particle_is_never_a_stammer_on_the_reading_alone() {
    let stream = vec![
        affix("か", "か", "カ", "助詞"),
        affix("、", "、", "、", "補助記号"),
        affix("彼", "彼", "カレ", "代名詞"),
    ];
    assert_eq!(
        surfaces(drop_stutters(stream, &mut Trace::off())),
        ["か", "、", "彼"]
    );
}

#[test]
fn a_comma_alone_is_not_a_stammer() {
    let stream = vec![
        affix("そ", "そう", "ソ", "副詞"),
        affix("、", "、", "、", "補助記号"),
        affix("あれ", "あれ", "アレ", "代名詞"),
    ];
    assert_eq!(
        surfaces(drop_stutters(stream, &mut Trace::off())),
        ["そ", "、", "あれ"]
    );
}

#[test]
fn a_kanji_fragment_is_never_a_stammer() {
    let stream = vec![
        affix("木", "木", "キ", "名詞"),
        affix("、", "、", "、", "補助記号"),
        affix("木材", "木材", "モクザイ", "名詞"),
    ];
    assert_eq!(
        surfaces(drop_stutters(stream, &mut Trace::off())),
        ["木", "、", "木材"]
    );
}

#[test]
fn is_content_word_rejects_particles() {
    assert!(!is_content_word("助詞"));
}

#[test]
fn is_content_word_rejects_auxiliary_verbs() {
    assert!(!is_content_word("助動詞"));
}

#[test]
fn is_content_word_rejects_punctuation() {
    assert!(!is_content_word("補助記号"));
}

#[test]
fn is_content_word_rejects_empty_string() {
    assert!(!is_content_word(""));
}

#[test]
fn figures_are_ascii_or_full_width_digits_only() {
    assert!(is_figures("2024"));
    assert!(is_figures("２０"));
    assert!(!is_figures("一"));
    assert!(!is_figures(""));
    assert!(!is_figures("1時間"));
}

/// Every small kana is an impossible onset, the rarer ones included.
#[test]
fn every_small_kana_is_an_impossible_onset() {
    for s in ["ゎ", "ヮ", "ヵ", "ヶ", "ゕ", "ゖ", "ㇰ", "っと", "んっ"] {
        assert!(jp_core::tokenize::has_impossible_onset(s), "{s}");
    }
    assert!(!jp_core::tokenize::has_impossible_onset("わ"));
}

/// Stripping what was stripped changes nothing.
#[test]
fn stripping_twice_is_stripping_once() {
    for line in ["早くっ、本を", "ごめんなさいっっ", "行った", "ぶっ殺すっ"] {
        let once = strip_emphatic_sokuon(line);
        assert_eq!(strip_emphatic_sokuon(&once), once);
    }
}
