use jp_core::tokenize::rules::TokenRules;
use jp_core::tokenize::trace::{Step, Trace};
use jp_core::tokenize::Token;

fn token(surface: &str, base: &str, reading: &str, pos: &str) -> Token {
    Token {
        surface: surface.to_string(),
        base_form: base.to_string(),
        reading: reading.to_string(),
        pos: pos.to_string(),
        proper_noun: false,
        subsidiary: false,
        inflected: false,
    }
}

fn surfaces(tokens: &[Token]) -> Vec<&str> {
    tokens.iter().map(|t| t.surface.as_str()).collect()
}

/// 度し + 難い spell the listed headword exactly, so the suffix joins in.
#[test]
fn a_trailing_suffix_may_spell_a_listed_headword() {
    let rules = TokenRules::new(Vec::new()).with_lexicon(vec!["度し難い".to_string()]);
    let stream = vec![
        token("度し", "度す", "ドシ", "動詞"),
        token("難い", "難い", "ガタイ", "接尾辞"),
    ];
    let out = rules.recompose(stream, &mut Trace::off());
    assert_eq!(surfaces(&out), ["度し難い"]);
    assert_eq!(out[0].base_form, "度し難い");
}

/// The lexicon is what admits the join, not the suffix tag.
#[test]
fn an_unlisted_compound_stays_apart() {
    let rules = TokenRules::new(Vec::new()).with_lexicon(vec!["難い".to_string()]);
    let stream = vec![
        token("度し", "度す", "ドシ", "動詞"),
        token("難い", "難い", "ガタイ", "接尾辞"),
    ];
    assert_eq!(surfaces(&rules.recompose(stream, &mut Trace::off())), ["度し", "難い"]);
}

/// A listed phrase built of a pronoun and a particle is never one word.
#[test]
fn a_listed_phrase_is_never_joined() {
    let rules = TokenRules::new(Vec::new()).with_lexicon(vec!["それは".to_string()]);
    let stream = vec![
        token("それ", "それ", "ソレ", "代名詞"),
        token("は", "は", "ハ", "助詞"),
    ];
    assert_eq!(surfaces(&rules.recompose(stream, &mut Trace::off())), ["それ", "は"]);
}

/// Two characters are too short to join on a listing, unless both are kanji
/// spelled exactly as the dictionary spells the word.
#[test]
fn a_short_join_needs_kanji() {
    let rules = TokenRules::new(Vec::new()).with_lexicon(vec!["日本".to_string(), "あの".to_string()]);
    let kanji = vec![token("日", "日", "ニチ", "名詞"), token("本", "本", "ホン", "名詞")];
    assert_eq!(surfaces(&rules.recompose(kanji, &mut Trace::off())), ["日本"]);
    let kana = vec![token("あ", "あ", "ア", "感動詞"), token("の", "の", "ノ", "助詞")];
    assert_eq!(surfaces(&rules.recompose(kana, &mut Trace::off())), ["あ", "の"]);
}

/// With no lexicon and no readings, recomposition leaves the stream alone.
#[test]
fn nothing_to_join_against_changes_nothing() {
    let rules = TokenRules::new(Vec::new());
    let stream = vec![
        token("度し", "度す", "ドシ", "動詞"),
        token("難い", "難い", "ガタイ", "接尾辞"),
    ];
    assert_eq!(surfaces(&rules.recompose(stream, &mut Trace::off())), ["度し", "難い"]);
}

/// A recording trace says why a run was joined.
#[test]
fn a_recorded_join_is_explained() {
    let rules = TokenRules::new(Vec::new()).with_lexicon(vec!["度し難い".to_string()]);
    let stream = vec![
        token("度し", "度す", "ドシ", "動詞"),
        token("難い", "難い", "ガタイ", "接尾辞"),
    ];
    let mut trace = Trace::recording();
    rules.recompose(stream, &mut trace);
    assert!(trace.into_steps().iter().any(|s| matches!(s, Step::Join { .. })));
}

/// Whatever recomposition joins, the line it spells is the line it was given.
#[test]
fn recomposition_keeps_the_text() {
    let rules = TokenRules::new(Vec::new()).with_lexicon(vec!["度し難い".to_string()]);
    let stream = vec![
        token("彼", "彼", "カレ", "代名詞"),
        token("は", "は", "ハ", "助詞"),
        token("度し", "度す", "ドシ", "動詞"),
        token("難い", "難い", "ガタイ", "接尾辞"),
    ];
    let before: String = stream.iter().map(|t| t.surface.as_str()).collect();
    let out = rules.recompose(stream, &mut Trace::off());
    assert_eq!(surfaces(&out), ["彼", "は", "度し難い"]);
    let after: String = out.iter().map(|t| t.surface.as_str()).collect();
    assert_eq!(after, before);
}

/// Each run offered to recomposition is recorded once, in order, with what
/// became of it.
#[test]
fn every_offered_run_is_recorded() {
    let rules = TokenRules::new(Vec::new()).with_lexicon(vec!["度し難い".to_string()]);
    let stream = vec![
        token("度し", "度す", "ドシ", "動詞"),
        token("難い", "難い", "ガタイ", "接尾辞"),
        token("本", "本", "ホン", "名詞"),
    ];
    let mut trace = Trace::recording();
    let out = rules.recompose(stream, &mut trace);
    assert_eq!(surfaces(&out), ["度し難い", "本"]);
    let steps = trace.into_steps();
    // 度し 難い 本, then 度し 難い (joined); 本 alone is offered nothing.
    assert_eq!(steps.len(), 2);
    assert!(matches!(&steps[1], Step::Join { verdict: jp_core::tokenize::trace::Verdict::Joined { .. }, .. }));
}

fn morph(surface: &str, reading: &str, pos: &[&str]) -> jp_core::tokenize::rules::Morph {
    jp_core::tokenize::rules::Morph {
        surface: surface.to_string(),
        dictionary_form: surface.to_string(),
        normalized_form: surface.to_string(),
        reading_form: reading.to_string(),
        lemma_reading: reading.to_string(),
        pos: pos.iter().map(|p| p.to_string()).collect(),
        rederived: Vec::new(),
    }
}

/// Explaining a line yields the tokens tokenizing it does, and the
/// explanation is not empty.
#[test]
fn explaining_a_line_yields_the_tokens_tokenizing_it_does() {
    let rules = TokenRules::new(Vec::new()).with_lexicon(vec!["本".to_string(), "読む".to_string()]);
    let line = || {
        vec![
            jp_core::tokenize::rules::Analysis { morph: morph("本", "ホン", &["名詞", "普通名詞"]), middle: None, finest: None },
            jp_core::tokenize::rules::Analysis { morph: morph("を", "ヲ", &["助詞", "格助詞"]), middle: None, finest: None },
            jp_core::tokenize::rules::Analysis { morph: morph("読む", "ヨム", &["動詞", "一般"]), middle: None, finest: None },
        ]
    };
    let quiet = rules.run(&line(), &mut Trace::off());
    let mut trace = Trace::recording();
    let told = rules.run(&line(), &mut trace);
    assert_eq!(quiet, told);
    assert_eq!(surfaces(&told), ["本", "を", "読む"]);
    assert!(trace.into_steps().len() >= told.len());
}
