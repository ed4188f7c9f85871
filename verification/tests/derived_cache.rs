use std::collections::{HashMap, HashSet};

use jp_core::highlight::derived::{
    decode_arbitration, decode_master, decode_ranks, decode_set, encode_ranks, encode_set, stored_fingerprint, current_payloads, Derived,
    SECTIONS,
};
use jp_core::knowledge::dictionaries::PreferredReading;

fn sample() -> Derived {
    Derived {
        wordhood_terms: vec!["景気づけ".to_string(), "を".to_string()],
        wordhood_readings: vec!["むわむわ".to_string()],
        master_headwords: vec!["私".to_string()],
        master_entries: vec![
            ("私".to_string(), "わたし".to_string()),
            ("私".to_string(), "わたくし".to_string()),
        ],
        master_conjugatable: vec!["許す".to_string()],
        standard_entries: vec![("意味ありげ".to_string(), "いみありげ".to_string())],
        ambiguous_ranks: vec![(("伺う".to_string(), "うかがう".to_string()), 4259)],
        reader_ranks: vec![("私".to_string(), 12i64)],
        bccwj_ranks: vec![("私".to_string(), 182i64)],
        preferred_readings: vec![(
            "私".to_string(),
            PreferredReading {
                preferred: "わたし".to_string(),
                acceptable: vec!["わたし".to_string(), "あたし".to_string()],
            },
        )],
    }
}

/// Decode every section back, the way a load assembles them.
fn round_trip(derived: &Derived) -> Derived {
    let mut by_name: HashMap<&str, Vec<u8>> = derived.encode().into_iter().collect();
    let (master_headwords, master_entries, master_conjugatable, standard_entries) =
        decode_master(&by_name.remove("master").unwrap()).expect("master");
    let (ambiguous_ranks, preferred_readings) =
        decode_arbitration(&by_name.remove("arbitration").unwrap()).expect("arbitration");
    Derived {
        wordhood_terms: decode_set(&by_name.remove("wordhood_terms").unwrap()).expect("terms"),
        wordhood_readings: decode_set(&by_name.remove("wordhood_readings").unwrap())
            .expect("readings"),
        master_headwords,
        master_entries,
        master_conjugatable,
        standard_entries,
        ambiguous_ranks,
        reader_ranks: decode_ranks(&by_name.remove("reader_ranks").unwrap()).expect("reader ranks"),
        bccwj_ranks: decode_ranks(&by_name.remove("corpus_ranks").unwrap()).expect("corpus ranks"),
        preferred_readings,
    }
}

fn as_set(v: &[String]) -> HashSet<String> {
    v.iter().cloned().collect()
}

#[test]
fn every_collection_survives_the_round_trip() {
    let want = sample();
    let got = round_trip(&want);
    assert_eq!(as_set(&got.wordhood_terms), as_set(&want.wordhood_terms));
    assert_eq!(as_set(&got.wordhood_readings), as_set(&want.wordhood_readings));
    assert_eq!(as_set(&got.master_headwords), as_set(&want.master_headwords));
    assert_eq!(got.master_entries, want.master_entries);
    assert_eq!(as_set(&got.master_conjugatable), as_set(&want.master_conjugatable));
    assert_eq!(got.standard_entries, want.standard_entries);
    assert_eq!(got.ambiguous_ranks, want.ambiguous_ranks);
    assert_eq!(got.reader_ranks, want.reader_ranks);
    assert_eq!(got.bccwj_ranks, want.bccwj_ranks);
    let preference = &got
        .preferred_readings
        .iter()
        .find(|(t, _)| t == "私")
        .expect("私")
        .1;
    assert_eq!(preference.preferred, "わたし");
    assert!(preference.acceptable.iter().any(|a| a == "あたし"));
}

/// Every section must name itself, or a load silently drops one.
#[test]
fn the_sections_written_are_the_sections_expected() {
    let written: HashSet<&str> = sample().encode().into_iter().map(|(n, _)| n).collect();
    assert_eq!(written, SECTIONS.into_iter().collect::<HashSet<&str>>());
}

/// A truncated or overlong section must cost a rebuild, never a panic.
#[test]
fn a_damaged_section_decodes_to_nothing() {
    for (name, whole) in sample().encode() {
        let decode: fn(&[u8]) -> bool = match name {
            "wordhood_terms" | "wordhood_readings" => |b| decode_set(b).is_some(),
            "master" => |b| decode_master(b).is_some(),
            "reader_ranks" | "corpus_ranks" => |b| decode_ranks(b).is_some(),
            _ => |b| decode_arbitration(b).is_some(),
        };
        assert!(decode(&whole), "{name} decodes as written");
        for cut in [0, 1, 3, whole.len() / 2, whole.len() - 1] {
            assert!(!decode(&whole[..cut]), "{name} truncated at {cut}");
        }
        let mut extra = whole.clone();
        extra.push(0);
        assert!(!decode(&extra), "{name} with trailing bytes");
        // A count that claims more than the section could possibly hold.
        let mut lying = whole.clone();
        lying[..4].copy_from_slice(&u32::MAX.to_le_bytes());
        assert!(!decode(&lying), "{name} with an impossible count");
    }
}

#[test]
fn a_set_reads_back_as_written() {
    let set = vec!["あ".to_string(), "漢字".to_string(), String::new()];
    assert_eq!(decode_set(&encode_set(&set)), Some(set));
}

#[test]
fn ranks_read_back_as_written() {
    let ranks = vec![("私".to_string(), 12i64), ("僕".to_string(), -3i64)];
    assert_eq!(decode_ranks(&encode_ranks(&ranks)), Some(ranks));
}

#[test]
fn an_empty_set_is_four_zero_bytes() {
    assert_eq!(encode_set(&Vec::new()), vec![0u8, 0, 0, 0]);
    assert_eq!(decode_set(&[0u8, 0, 0, 0]), Some(Vec::new()));
}

#[test]
fn a_string_that_is_not_utf8_decodes_to_nothing() {
    // One string of two bytes, 0xFF 0xFE: a count of 1, a length of 2.
    let bytes = [1u8, 0, 0, 0, 2, 0, 0, 0, 0xFF, 0xFE];
    assert_eq!(decode_set(&bytes), None);
}

#[test]
fn a_small_derivation_fits_the_format() {
    assert!(sample().fits_format());
}

fn rows(v: &[(&str, &str)]) -> Vec<(String, String)> {
    v.iter().map(|(a, b)| (a.to_string(), b.to_string())).collect()
}

/// Every section stamped alike gives the stamp; one missing or one stamped
/// otherwise gives nothing.
#[test]
fn the_sections_must_agree_on_one_fingerprint() {
    let all: Vec<(&str, &str)> = SECTIONS.iter().map(|s| (*s, "v2 1")).collect();
    assert_eq!(stored_fingerprint(&rows(&all)), Some("v2 1".to_string()));
    assert_eq!(stored_fingerprint(&rows(&all[1..])), None);
    let mut split = all.clone();
    split[3].1 = "v2 2";
    assert_eq!(stored_fingerprint(&rows(&split)), None);
}

/// The six payloads come back in order when every section carries the wanted
/// fingerprint; a section stamped otherwise means no cache.
#[test]
fn the_payloads_are_read_only_under_the_wanted_fingerprint() {
    let rows: Vec<(String, String, Vec<u8>)> = SECTIONS
        .iter()
        .enumerate()
        .map(|(i, s)| (s.to_string(), "v2 1".to_string(), vec![i as u8]))
        .collect();
    let got = current_payloads(&rows, "v2 1").expect("all six current");
    assert_eq!(got, (0..6u8).map(|i| vec![i]).collect::<Vec<_>>());
    assert_eq!(current_payloads(&rows, "v2 2"), None);
    let mut stale = rows.clone();
    stale[4].1 = "v2 0".to_string();
    assert_eq!(current_payloads(&stale, "v2 1"), None);
}
