use jp_core::commands::{
    import_step, parse_command, parse_invocation, parse_role, refuse_removal, role_step, take_option,
    Command, ImportStep, RoleStep, USAGE,
};
use jp_core::knowledge::dictionaries::{Dictionary, Role};

fn args(words: &[&str]) -> Vec<String> {
    words.iter().map(|w| w.to_string()).collect()
}

fn dict(id: i64, title: &str, path: &str, role: Role) -> Dictionary {
    Dictionary { id, title: title.to_string(), source_path: path.to_string(), role, priority: id }
}

#[test]
fn every_role_is_named_on_the_command_line() {
    for (word, role) in [
        ("master", Role::Master),
        ("standard", Role::Standard),
        ("name", Role::Name),
        ("frequency", Role::Frequency),
        ("pitch", Role::Pitch),
        ("reference", Role::Reference),
    ] {
        assert_eq!(parse_role(word), Ok(role));
    }
}

#[test]
fn a_typo_in_a_role_is_an_error_not_a_demotion() {
    assert_eq!(
        parse_role("mastr"),
        Err("unknown role: mastr (master, standard, name, frequency, pitch, reference)".to_string())
    );
}

#[test]
fn an_option_and_its_value_are_taken_out() {
    let mut a = args(&["sync", "--dir", "/d", "--db", "/k.db"]);
    assert_eq!(take_option(&mut a, "--dir"), Some("/d".to_string()));
    assert_eq!(a, args(&["sync", "--db", "/k.db"]));
    assert_eq!(take_option(&mut a, "--db"), Some("/k.db".to_string()));
    assert_eq!(a, args(&["sync"]));
}

#[test]
fn an_option_without_a_value_is_left_alone() {
    let mut a = args(&["sync", "--dir"]);
    assert_eq!(take_option(&mut a, "--dir"), None);
    assert_eq!(a, args(&["sync", "--dir"]));
    assert_eq!(take_option(&mut a, "--db"), None);
}

#[test]
fn only_the_first_occurrence_is_taken() {
    let mut a = args(&["--role", "name", "import", "--role", "pitch"]);
    assert_eq!(take_option(&mut a, "--role"), Some("name".to_string()));
    assert_eq!(a, args(&["import", "--role", "pitch"]));
}

#[test]
fn an_invocation_reads_its_options_then_its_command() {
    let inv = parse_invocation(args(&["import", "a.zip", "--role", "pitch", "--db", "k.db"])).unwrap();
    assert_eq!(inv.dir, None);
    assert_eq!(inv.db, Some("k.db".to_string()));
    assert_eq!(inv.role, Some(Role::Pitch));
    assert_eq!(inv.command, "import");
    assert_eq!(inv.rest, args(&["a.zip"]));
}

#[test]
fn no_command_is_answered_with_the_usage() {
    let err = parse_invocation(args(&["--dir", "/d"])).unwrap_err();
    assert_eq!(err, format!("no command given\n\n{USAGE}"));
}

#[test]
fn a_bad_role_option_is_refused_before_the_command_is_read() {
    let err = parse_invocation(args(&["--role", "nope"])).unwrap_err();
    assert!(err.starts_with("unknown role: nope"));
}

#[test]
fn each_command_reads_its_arguments() {
    assert!(matches!(parse_command("sync", &vec![]), Ok(Command::Sync)));
    assert!(matches!(parse_command("list", &vec![]), Ok(Command::List)));
    assert!(matches!(parse_command("-h", &vec![]), Ok(Command::Help)));
    match parse_command("import", &args(&["a.zip", "b.zip"])) {
        Ok(Command::Import(zips)) => assert_eq!(zips, args(&["a.zip", "b.zip"])),
        other => panic!("{other:?}"),
    }
    assert!(matches!(
        parse_command("priority", &args(&["3", "-2"])),
        Ok(Command::Priority { id: 3, priority: -2 })
    ));
    assert!(matches!(parse_command("reimport", &args(&["7"])), Ok(Command::Reimport(7))));
    assert!(matches!(parse_command("remove", &args(&["+8"])), Ok(Command::Remove(8))));
    assert!(matches!(
        parse_command("set-role", &args(&["2", "master"])),
        Ok(Command::SetRole { id: 2, role: Role::Master })
    ));
}

#[test]
fn each_misuse_has_its_own_answer() {
    assert_eq!(
        parse_command("import", &vec![]).unwrap_err(),
        format!("import needs at least one zip\n\n{USAGE}")
    );
    assert_eq!(
        parse_command("priority", &args(&["3"])).unwrap_err(),
        format!("priority needs an id and a number\n\n{USAGE}")
    );
    assert_eq!(parse_command("priority", &args(&["x", "1"])).unwrap_err(), "not an id: x");
    assert_eq!(parse_command("priority", &args(&["1", "1.5"])).unwrap_err(), "not a number: 1.5");
    assert_eq!(
        parse_command("remove", &vec![]).unwrap_err(),
        format!("remove needs an id\n\n{USAGE}")
    );
    assert_eq!(parse_command("reimport", &args(&[" 7"])).unwrap_err(), "not an id:  7");
    assert_eq!(
        parse_command("set-role", &args(&["2", "boss"])).unwrap_err(),
        "unknown role: boss (master, standard, name, frequency, pitch, reference)"
    );
    assert_eq!(
        parse_command("frobnicate", &vec![]).unwrap_err(),
        format!("unknown command: frobnicate\n\n{USAGE}")
    );
}

#[test]
fn an_id_out_of_range_is_not_an_id() {
    assert_eq!(
        parse_command("remove", &args(&["9223372036854775808"])).unwrap_err(),
        "not an id: 9223372036854775808"
    );
    assert!(matches!(
        parse_command("remove", &args(&["-9223372036854775808"])),
        Ok(Command::Remove(i64::MIN))
    ));
}

#[test]
fn only_list_and_help_leave_the_derived_cache_alone() {
    assert!(!Command::List.rebuilds_derived());
    assert!(!Command::Help.rebuilds_derived());
    assert!(Command::Sync.rebuilds_derived());
    assert!(Command::Remove(1).rebuilds_derived());
}

#[test]
fn the_master_cannot_be_removed() {
    let master = dict(1, "三省堂国語辞典", "/d/sankoku.zip", Role::Master);
    assert_eq!(
        refuse_removal(&master),
        Some("三省堂国語辞典 is the master dictionary — set another one master first".to_string())
    );
    assert_eq!(refuse_removal(&dict(2, "Jitendex", "/d/j.zip", Role::Reference)), None);
}

#[test]
fn a_zip_cached_elsewhere_is_repointed_not_reimported() {
    let cached = vec![
        dict(1, "Jitendex", "jitendex.zip", Role::Reference),
        dict(2, "BCCWJ", "/old/bccwj.zip", Role::Frequency),
    ];
    let names = vec![Some("jitendex.zip".to_string()), Some("bccwj.zip".to_string())];
    assert_eq!(
        import_step(&cached, &names, "/new/bccwj.zip", Some("bccwj.zip")),
        ImportStep::Repoint(1)
    );
    assert_eq!(
        import_step(&cached, &names, "/old/bccwj.zip", Some("bccwj.zip")),
        ImportStep::Load { fresh: false }
    );
    assert_eq!(
        import_step(&cached, &names, "/new/nhk.zip", Some("nhk.zip")),
        ImportStep::Load { fresh: true }
    );
}

#[test]
fn a_role_is_guessed_only_for_a_new_row() {
    assert_eq!(role_step(Some(Role::Pitch), false, Some(4)), RoleStep::Assign(Role::Pitch));
    assert_eq!(role_step(None, true, Some(4)), RoleStep::Guess(4));
    assert_eq!(role_step(None, false, Some(4)), RoleStep::Keep);
    assert_eq!(role_step(Some(Role::Pitch), true, None), RoleStep::Keep);
}
