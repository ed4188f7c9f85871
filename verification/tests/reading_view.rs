use std::sync::Arc;

use jp_core::highlight::{ledger_terms, lookup_rank, spans_of, Highlighter, Wordhood};
use jp_core::knowledge::vocabulary::{Status, Term, VocabRow};
use jp_core::tables::PairRanks;
use jp_core::tokenize::{MasterWords, Token, TokenizeError, Tokenizer};

/// A tokenizer that answers every line with the same tokens.
struct Fixed(Vec<Token>);

impl Tokenizer for Fixed {
    fn tokenize(&self, _text: &str) -> Result<Vec<Token>, TokenizeError> {
        Ok(self.0.clone())
    }
}

/// A tokenizer that fails on every line.
struct Broken;

impl Tokenizer for Broken {
    fn tokenize(&self, _text: &str) -> Result<Vec<Token>, TokenizeError> {
        Err(TokenizeError::Failed("no dictionary".to_string()))
    }
}

fn token(surface: &str, base: &str, reading: &str, pos: &str) -> Token {
    Token {
        surface: surface.to_string(),
        base_form: base.to_string(),
        reading: reading.to_string(),
        pos: pos.to_string(),
        proper_noun: false,
        subsidiary: false,
        inflected: false,
    }
}

fn row(headword: &str, reading: &str, status: Status, encounters: i64) -> VocabRow {
    VocabRow {
        term: Term::new(headword, reading),
        pos: None,
        status,
        mined: false,
        encounter_count: encounters,
        lookup_count: 2,
        in_master: true,
        in_name: false,
        in_reference: false,
        freq_rank: None,
    }
}

fn line() -> Vec<Token> {
    let mut name = token("間宮", "間宮", "マミヤ", "名詞");
    name.proper_noun = true;
    vec![
        name,
        token("は", "は", "ハ", "助詞"),
        token("鬼", "鬼", "キ", "名詞"),
        token("を", "を", "ヲ", "助詞"),
        token("振っ", "振る", "フッ", "動詞"),
        token("た", "た", "タ", "助動詞"),
        token("景気づけ", "景気づけ", "ケイキヅケ", "名詞"),
        token("ムワ", "ムワ", "ムワ", "名詞"),
    ]
}

fn highlighter<T: Tokenizer>(t: T) -> Highlighter<T> {
    let mut ranks = PairRanks::new();
    ranks.add("鬼".to_string(), "き".to_string(), 900);
    ranks.add("振る".to_string(), String::new(), 1200);
    let mut bccwj = PairRanks::new();
    bccwj.add("鬼".to_string(), "おに".to_string(), 3000);
    Highlighter::new(
        Arc::new(t),
        Wordhood::new(vec!["景気づけ".to_string()], Vec::new()),
        MasterWords::new(Vec::new(), &[]),
        ranks,
        bccwj,
    )
}

#[test]
fn the_ledger_is_asked_about_content_words_once_each() {
    let h = highlighter(Fixed(line()));
    let text = "間宮は鬼を振った景気づけムワ";
    let candidates = h.candidates(text);
    assert_eq!(candidates.len(), 8);
    let terms = ledger_terms(&candidates);
    assert_eq!(
        terms,
        vec![
            Term::new("鬼", "き"),
            Term::new("振る", "ふっ"),
            Term::new("景気づけ", "けいきづけ"),
            Term::new("ムワ", "むわ"),
        ]
    );
}

#[test]
fn every_token_is_classified_in_reading_order() {
    let h = highlighter(Fixed(line()));
    let text = "間宮は鬼を振った景気づけムワ";
    let candidates = h.candidates(text);
    let rows = vec![row("鬼", "き", Status::Unknown, 3), row("振る", "ふっ", Status::New, 7)];
    // 鬼 is known under おに: known is known, and the span points at that row.
    let known = vec![("鬼".to_string(), "おに".to_string())];
    let analyzed = h.judge(&candidates, &rows, &known);
    let summary: Vec<(&str, Option<&str>, Option<&str>)> = analyzed
        .iter()
        .map(|a| (a.surface.as_str(), a.status, a.excluded))
        .collect();
    assert_eq!(
        summary,
        vec![
            ("間宮", None, Some("name")),
            ("は", None, Some("grammar")),
            ("鬼", Some("known"), None),
            ("を", None, Some("grammar")),
            ("振っ", Some("seen"), None),
            ("た", None, Some("grammar")),
            ("景気づけ", Some("new"), None),
            ("ムワ", None, Some("non-word")),
        ]
    );
    let oni = &analyzed[2];
    assert_eq!(oni.reading, "き", "the tokenizer's reading is reported as it was");
    assert_eq!(oni.judged_as.as_deref(), Some("おに"));
    assert_eq!(oni.encounter_count, Some(3));
    assert_eq!(oni.freq_rank, Some(900));
    assert_eq!(oni.bccwj_rank, None);
    assert_eq!(analyzed[4].freq_rank, Some(1200), "a reading-less row answers for every reading");
    assert_eq!((analyzed[4].start, analyzed[4].len), (5, 2));

    let spans = spans_of(&analyzed);
    assert_eq!(
        spans.iter().map(|s| (s.headword.as_str(), s.reading.as_str(), s.status)).collect::<Vec<_>>(),
        vec![("鬼", "おに", "known"), ("振る", "ふっ", "seen"), ("景気づけ", "けいきづけ", "new")]
    );
}

#[test]
fn a_failed_tokenizer_draws_nothing() {
    let h = highlighter(Broken);
    assert!(h.candidates("鬼").is_empty());
    assert!(h.prefix_forms("鬼", 5).is_empty());
    assert_eq!(h.ledger_key("素振"), "素振");
}

#[test]
fn a_spelling_of_one_token_keys_on_its_base_form() {
    let h = highlighter(Fixed(vec![token("素振り", "素振り", "ソブリ", "名詞")]));
    assert_eq!(h.ledger_key("素振"), "素振り");
    let phrase = highlighter(Fixed(vec![token("心", "心", "ココロ", "名詞"), token("おき", "おく", "オキ", "動詞")]));
    assert_eq!(phrase.ledger_key("心おき"), "心おき", "a phrase keys on itself");
}

#[test]
fn prefix_forms_put_the_last_token_in_canonical_form() {
    let h = highlighter(Fixed(vec![
        token("しびれ", "しびれ", "シビレ", "名詞"),
        token("を", "を", "ヲ", "助詞"),
        token("切らし", "切らす", "キラシ", "動詞"),
        token("た", "た", "タ", "助動詞"),
    ]));
    assert_eq!(
        h.prefix_forms("しびれを切らした", 3),
        vec!["しびれ".to_string(), "しびれを".to_string(), "しびれを切らす".to_string()]
    );
}

#[test]
fn a_rank_is_looked_up_under_the_displayed_reading() {
    let mut ranks = PairRanks::new();
    ranks.add("ください".to_string(), "ください".to_string(), 40);
    ranks.add("ください".to_string(), "ください".to_string(), 55);
    assert_eq!(lookup_rank(&ranks, &Term::new("ください", "")), Some(40), "the better rank is kept");
    assert_eq!(lookup_rank(&ranks, &Term::new("下さい", "ください")), None);
}
