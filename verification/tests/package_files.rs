use dbdev::package_files::{
    check_control_file_count, check_extension_name, classify_sql_file, entry_kind, is_valid_extension_name, is_valid_version, EntryKind,
    SqlFileName,
};

#[test]
fn entries_are_recognised_by_name() {
    assert_eq!(entry_kind("README.md"), EntryKind::Readme);
    assert_eq!(entry_kind("my_ext.control"), EntryKind::Control);
    assert_eq!(entry_kind("my_ext--1.0.0.sql"), EntryKind::Sql);
    assert_eq!(entry_kind("notes.txt"), EntryKind::Other);
    assert_eq!(entry_kind("readme.md"), EntryKind::Other);
    assert_eq!(entry_kind("Makefile"), EntryKind::Other);
}

#[test]
fn a_leading_dot_alone_is_no_extension() {
    assert_eq!(entry_kind(".sql"), EntryKind::Other);
    assert_eq!(entry_kind(".control"), EntryKind::Other);
    assert_eq!(entry_kind("..sql"), EntryKind::Sql);
    assert_eq!(entry_kind("x.sql."), EntryKind::Other);
    assert_eq!(entry_kind(".."), EntryKind::Other);
}

#[test]
fn install_and_upgrade_scripts_are_told_apart() {
    match classify_sql_file("my_ext--1.0.0.sql", "my_ext") {
        SqlFileName::Install { version } => assert_eq!(version, "1.0.0"),
        other => panic!("unexpected {:?}", other),
    }
    match classify_sql_file("my_ext--1.0.0--1.1.0.sql", "my_ext") {
        SqlFileName::Upgrade { from_version, to_version } => {
            assert_eq!(from_version, "1.0.0");
            assert_eq!(to_version, "1.1.0");
        }
        other => panic!("unexpected {:?}", other),
    }
}

#[test]
fn scripts_to_skip_say_why() {
    assert!(matches!(
        classify_sql_file("other--1.0.0.sql", "my_ext"),
        SqlFileName::ForeignExtension { name } if name == "other"
    ));
    assert!(matches!(
        classify_sql_file("my_ext--1.0.sql", "my_ext"),
        SqlFileName::InvalidVersion { version } if version == "1.0"
    ));
    assert!(matches!(
        classify_sql_file("my_ext--x--1.0.0.sql", "my_ext"),
        SqlFileName::InvalidFromVersion { version } if version == "x"
    ));
    assert!(matches!(
        classify_sql_file("my_ext--1.0.0--2.sql", "my_ext"),
        SqlFileName::InvalidToVersion { version } if version == "2"
    ));
    assert!(matches!(
        classify_sql_file("my_ext.sql", "my_ext"),
        SqlFileName::Unrecognized
    ));
    assert!(matches!(
        classify_sql_file("my_ext--1.0.0--1.1.0--1.2.0.sql", "my_ext"),
        SqlFileName::Unrecognized
    ));
}

#[test]
fn dashes_split_from_the_left() {
    assert!(matches!(
        classify_sql_file("my_ext---1.0.0.sql", "my_ext"),
        SqlFileName::InvalidVersion { version } if version == "-1.0.0"
    ));
}

#[test]
fn extension_names_follow_the_naming_rule() {
    assert!(is_valid_extension_name("my_ext"));
    assert!(is_valid_extension_name("ab"));
    assert!(!is_valid_extension_name("a"));
    assert!(!is_valid_extension_name("1ext"));
    assert!(!is_valid_extension_name("_ext"));
    assert!(!is_valid_extension_name("my-ext"));
    assert!(is_valid_extension_name(&"a".repeat(32)));
    assert!(!is_valid_extension_name(&"a".repeat(33)));
}

#[test]
fn versions_are_three_numbers() {
    assert!(is_valid_version("1.2.3"));
    assert!(is_valid_version("10.0.12"));
    assert!(!is_valid_version("1.2"));
    assert!(!is_valid_version("1.2.3.4"));
    assert!(!is_valid_version("1..3"));
    assert!(!is_valid_version("v1.2.3"));
    assert!(!is_valid_version(""));
}

#[test]
fn a_package_needs_exactly_one_control_file() {
    assert_eq!(
        check_control_file_count(0).unwrap_err().message(),
        "no control file detected"
    );
    assert!(check_control_file_count(1).is_ok());
    assert_eq!(
        check_control_file_count(2).unwrap_err().message(),
        "multiple control files detected"
    );
}

#[test]
fn an_invalid_extension_name_is_reported() {
    assert!(check_extension_name("my_ext").is_ok());
    assert_eq!(
        check_extension_name("9lives").unwrap_err().message(),
        "Invalid extension name detected: 9lives. It must begin with an alphabet, contain only alphanumeric characters or `_` and should be between 2 and 32 characters long."
    );
}
