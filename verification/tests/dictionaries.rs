use jp_core::knowledge::dictionaries::{
    decide_preference, ensure_master_plan, master_role_changes, preferred_readings, role_for_contents,
    Dictionary, Role,
};

fn dict(id: i64, title: &str, path: &str, role: Role) -> Dictionary {
    Dictionary { id, title: title.to_string(), source_path: path.to_string(), role, priority: id }
}

#[test]
fn every_role_reads_back_as_itself() {
    for r in [Role::Master, Role::Standard, Role::Name, Role::Frequency, Role::Pitch, Role::Reference] {
        assert_eq!(Role::parse(r.as_str()), r);
    }
    assert_eq!(Role::parse("bogus"), Role::Reference, "anything unknown answers the fewest questions");
}

#[test]
fn a_role_is_guessed_from_what_the_zip_holds() {
    assert_eq!(role_for_contents(true, true, true), Role::Reference);
    assert_eq!(role_for_contents(false, true, false), Role::Frequency);
    assert_eq!(role_for_contents(false, false, true), Role::Pitch);
    assert_eq!(role_for_contents(false, false, false), Role::Reference);
}

#[test]
fn promoting_one_master_demotes_the_incumbent() {
    let ds = vec![
        dict(1, "Sankoku", "/d/sankoku.zip", Role::Master),
        dict(2, "明鏡", "/d/meikyo.zip", Role::Reference),
        dict(3, "BCCWJ", "/d/bccwj.zip", Role::Frequency),
    ];
    assert_eq!(master_role_changes(&ds, 2), vec![(1, Role::Reference), (2, Role::Master)]);
    assert!(master_role_changes(&ds, 1).is_empty(), "already the one master");
}

#[test]
fn the_configured_master_is_found_by_path_or_title() {
    let ds = vec![
        dict(1, "Jitendex", "/d/jitendex.zip", Role::Reference),
        dict(2, "三省堂国語辞典", "/d/sankoku8.zip", Role::Reference),
    ];
    let (id, changes) = ensure_master_plan(&ds, "sankoku8.zip").expect("named by path");
    assert_eq!(id, 2);
    assert_eq!(changes, vec![(2, Role::Master)]);
    assert_eq!(ensure_master_plan(&ds, "Jitendex").map(|p| p.0), Some(1));
    assert!(ensure_master_plan(&ds, "").is_none());
    assert!(ensure_master_plan(&ds, "missing.zip").is_none());
}

#[test]
fn a_reading_far_below_the_best_is_overruled() {
    // 私: わたし common, あたし close behind, わっし rare — rare enough to be
    // the wrong reading rather than a rarer one.
    let readings = vec![
        ("わたし".to_string(), 300, Some(20)),
        ("あたし".to_string(), 250, Some(900)),
        ("わっし".to_string(), 0, Some(5)),
    ];
    let p = decide_preference(&readings).expect("a preference");
    assert_eq!(p.preferred, "わたし");
    assert_eq!(p.acceptable, vec!["わたし".to_string(), "あたし".to_string()]);
}

#[test]
fn nothing_is_preferred_when_every_reading_is_current() {
    let readings = vec![("そら".to_string(), 300, Some(2)), ("から".to_string(), 290, Some(1))];
    assert!(decide_preference(&readings).is_none());
    assert!(decide_preference(&vec![("そら".to_string(), 300, Some(2))]).is_none(), "one reading");
}

#[test]
fn preferences_come_per_headword_in_the_order_first_met() {
    let rows = vec![
        ("私".to_string(), "わたし".to_string(), 300, Some(20)),
        ("空".to_string(), "そら".to_string(), 300, Some(2)),
        ("私".to_string(), "わっし".to_string(), 0, Some(5)),
        ("空".to_string(), "から".to_string(), 290, Some(1)),
    ];
    let got = preferred_readings(&rows);
    assert_eq!(got.len(), 1);
    assert_eq!(got[0].0, "私");
    assert_eq!(got[0].1.preferred, "わたし");
}

/// The reading a preference settles on is always one it accepts, even where
/// the corpus ranks an overruled reading higher.
#[test]
fn the_preferred_reading_is_acceptable() {
    let readings = vec![
        ("わっし".to_string(), 0, Some(1)),
        ("あたし".to_string(), 250, Some(900)),
        ("わたし".to_string(), 300, None),
    ];
    let p = decide_preference(&readings).expect("a preference");
    assert_eq!(p.preferred, "あたし");
    assert!(p.acceptable.contains(&p.preferred));
}
