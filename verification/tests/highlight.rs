use jp_core::highlight::{locate, tier_for, Candidate, Excluded, Span, Tier, Wordhood};
use jp_core::knowledge::vocabulary::{Status, Term, VocabRow};
use jp_core::tokenize::{MasterWords, Token};

/// A master dictionary that lists nothing, for the offset tests: what
/// `locate` does with an affix is `counts_as_word`'s business.
fn no_master() -> MasterWords {
    MasterWords::new(Vec::new(), &[])
}

/// The spans the feed would draw from a located line.
fn marked_spans(candidates: Vec<Candidate>) -> Vec<Span> {
    candidates
        .into_iter()
        .filter(|c| c.content && !c.proper_noun)
        .map(|c| c.span)
        .collect()
}

fn token(surface: &str, pos: &str) -> Token {
    Token {
        surface: surface.to_string(),
        base_form: surface.to_string(),
        reading: String::new(),
        pos: pos.to_string(),
        proper_noun: false,
        subsidiary: false,
        inflected: false,
    }
}

#[test]
fn spans_are_utf16_offsets_into_the_line() {
    let text = "彼女は本を読む";
    let tokens = vec![
        token("彼女", "名詞"),
        token("は", "助詞"),
        token("本", "名詞"),
        token("を", "助詞"),
        token("読む", "動詞"),
    ];
    let got: Vec<Span> = marked_spans(locate(text, tokens, &no_master()));
    assert_eq!(
        got.iter().map(|s| (s.start, s.len)).collect::<Vec<_>>(),
        vec![(0, 2), (3, 1), (5, 2)],
        "particles are skipped but must still advance the cursor"
    );
}

#[test]
fn a_surrogate_pair_counts_as_two_units() {
    // 𠮟 is outside the BMP: one char, two UTF-16 units.
    let text = "𠮟る本";
    let tokens = vec![token("𠮟る", "動詞"), token("本", "名詞")];
    let got: Vec<Span> = marked_spans(locate(text, tokens, &no_master()));
    assert_eq!(
        got.iter().map(|s| (s.start, s.len)).collect::<Vec<_>>(),
        vec![(0, 3), (3, 1)]
    );
}

#[test]
fn a_repeated_surface_lands_on_each_occurrence() {
    let text = "本と本";
    let tokens = vec![
        token("本", "名詞"),
        token("と", "助詞"),
        token("本", "名詞"),
    ];
    let got: Vec<Span> = marked_spans(locate(text, tokens, &no_master()));
    assert_eq!(
        got.iter().map(|s| (s.start, s.len)).collect::<Vec<_>>(),
        vec![(0, 1), (2, 1)]
    );
}

/// The tokenizer strips the emphatic っ before the analyzer sees the line, so
/// offsets are recovered against the *original*, and the stripped っ has to be
/// stepped over like any other unclaimed character.
#[test]
fn a_stripped_sokuon_still_advances_the_cursor() {
    let text = "「早くっ、本を」";
    let tokens = vec![token("早く", "形容詞"), token("本", "名詞")];
    let got: Vec<Span> = marked_spans(locate(text, tokens, &no_master()));
    assert_eq!(
        got.iter().map(|s| (s.start, s.len)).collect::<Vec<_>>(),
        vec![(1, 2), (5, 1)],
        "本 sits at 5: 「早くっ、 is four units before it"
    );
}

#[test]
fn a_name_gets_no_span() {
    let mut name = token("間宮", "名詞");
    name.proper_noun = true;
    assert!(marked_spans(locate("間宮", vec![name], &no_master())).is_empty());
}

fn row(status: Status, encounters: i64) -> VocabRow {
    VocabRow {
        term: Term::new("懲罰", "ちょうばつ"),
        pos: None,
        status,
        mined: false,
        encounter_count: encounters,
        lookup_count: 0,
        in_master: true,
        in_name: false,
        in_reference: false,
        freq_rank: None,
    }
}

#[test]
fn known_and_mined_are_sent_as_known() {
    assert_eq!(tier_for(&row(Status::Known, 50)), Ok(Tier::Known));
    let mut mined = row(Status::New, 50);
    mined.mined = true;
    assert_eq!(tier_for(&mined), Ok(Tier::Known));
}

#[test]
fn blacklisted_and_non_words_get_no_mark() {
    assert_eq!(
        tier_for(&row(Status::Blacklisted, 5)),
        Err(Excluded::Blacklisted)
    );
    let mut noise = row(Status::New, 5);
    noise.in_master = false;
    assert_eq!(tier_for(&noise), Err(Excluded::NonWord));
}

#[test]
fn untriaged_splits_on_encounter_count() {
    assert_eq!(tier_for(&row(Status::New, 1)), Ok(Tier::New));
    assert_eq!(tier_for(&row(Status::New, 2)), Ok(Tier::Seen));
}

fn wordhood() -> Wordhood {
    Wordhood::new(
        ["景気づけ".to_string()].into_iter().collect(),
        ["むわむわ".to_string()].into_iter().collect(),
    )
}

#[test]
fn a_term_only_a_reference_dictionary_lists_is_a_word() {
    assert!(wordhood().contains(&Term::new("景気づけ", "けいきづけ")));
    assert!(!wordhood().contains(&Term::new("景気づける", "けいきづける")));
}

#[test]
fn a_kana_headword_matches_a_dictionary_reading() {
    assert!(wordhood().contains(&Term::new("むわむわ", "むわむわ")));
    // A kanji headword gets no such fallback.
    assert!(!wordhood().contains(&Term::new("無和", "むわむわ")));
}

#[test]
fn a_short_kana_string_no_dictionary_has_is_not_a_word() {
    let w = wordhood();
    assert!(w.is_noise(&Term::new("ぎい", "ぎい")));
    assert!(w.is_noise(&Term::new("ちゅぷ", "ちゅぷ")));
    assert!(w.is_noise(&Term::new("ズチュ", "ズチュ")));
    // A dictionary having it settles the question, whatever its length.
    assert!(!w.is_noise(&Term::new("むわむわ", "むわむわ")));
    assert!(!w.is_noise(&Term::new("景気づけ", "けいきづけ")));
}

#[test]
fn a_longer_coinage_is_left_alone() {
    assert!(!wordhood().is_noise(&Term::new("ダイイング", "ダイイング")));
    assert!(!wordhood().is_noise(&Term::new("ヒトカリ", "ヒトカリ")));
}

#[test]
fn the_other_alphabet_is_asked_before_the_string_is_condemned() {
    let w = Wordhood::new(
        ["うち".to_string()].into_iter().collect(),
        ["こいつ".to_string()].into_iter().collect(),
    );
    assert!(!w.is_noise(&Term::new("ウチ", "ウチ")));
    assert!(!w.is_noise(&Term::new("コイツ", "コイツ")));
    assert!(w.is_noise(&Term::new("ズチュ", "ズチュ")));
}

#[test]
fn one_mora_is_never_rescued_by_the_fold() {
    let w = Wordhood::new(Vec::new(), ["ち".to_string()].into_iter().collect());
    assert!(w.is_noise(&Term::new("チ", "チ")));
    // Listed as itself, it is a word.
    let listed = Wordhood::new(["を".to_string()].into_iter().collect(), Vec::new());
    assert!(!listed.is_noise(&Term::new("を", "を")));
}

#[test]
fn an_empty_wordhood_condemns_nothing() {
    assert!(!Wordhood::default().is_noise(&Term::new("ぎい", "ぎい")));
}

#[test]
fn judged_unknown_outranks_its_encounter_count() {
    assert_eq!(tier_for(&row(Status::Unknown, 1)), Ok(Tier::Unknown));
    assert_eq!(tier_for(&row(Status::Unknown, 90)), Ok(Tier::Unknown));
}
