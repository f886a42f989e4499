use dbdev::control::{parse_control_entries, ControlError};
use dbdev::models::{ControlFileRef, Metadata};

fn control_file(contents: &str) -> Result<ControlFileRef, ControlError> {
    ControlFileRef::new("my_ext.control".to_string(), contents)
}

#[test]
fn test_control_file_parsing_robust() {
    let control_content = r#"
            # PostgreSQL extension control file
            # Comment line with leading spaces
            comment = 'A great extension with ''escaped'' quotes' # inline comment
            default_version = '1.2.3'
            relocatable = true
            requires = 'pg_net,  supabase_vault , pg_graphql'
            schema = 'public'
            repository = 'https://github.com/supabase/my_ext'
        "#;

    let control_file = control_file(control_content).unwrap();

    assert_eq!(control_file.extension_name().unwrap(), "my_ext");
    assert_eq!(
        control_file.comment().unwrap(),
        "A great extension with 'escaped' quotes"
    );
    assert_eq!(control_file.default_version().unwrap(), "1.2.3");
    assert_eq!(control_file.relocatable().unwrap(), true);
    assert_eq!(
        control_file.required_extensions(),
        vec!["pg_net", "supabase_vault", "pg_graphql"]
    );
    assert_eq!(control_file.schema().unwrap(), "public");
    assert_eq!(
        control_file.repository().unwrap(),
        "https://github.com/supabase/my_ext"
    );
}

#[test]
fn test_control_file_boolean_variants() {
    let bool_tests = [
        ("relocatable = yes", true),
        ("relocatable = ON", true),
        ("relocatable = 1", true),
        ("relocatable = 'true'", true),
        ("relocatable = no", false),
        ("relocatable = off", false),
        ("relocatable = 0", false),
        ("relocatable = 'false'", false),
    ];

    for (line, expected) in bool_tests {
        let cf = control_file(&format!("default_version = '1.0.0'\n{}", line)).unwrap();
        assert_eq!(cf.relocatable().unwrap(), expected, "Failed for {}", line);
    }
}

// `=` is optional between a parameter and its value.
#[test]
fn test_equals_sign_is_optional() {
    let cf = control_file("default_version '1.0.0'\nschema 'public'").unwrap();

    assert_eq!(cf.default_version().unwrap(), "1.0.0");
    assert_eq!(cf.schema().unwrap(), "public");
}

// A backslash emits the following character verbatim, so `\n` is the letter
// n rather than a newline.
#[test]
fn test_backslash_escapes_are_literal() {
    let cf = control_file(r#"comment = 'line\none\ttwo\\three\'four'"#).unwrap();

    assert_eq!(cf.comment().unwrap(), r#"linenonettwo\three'four"#);
}

// An unterminated quote is an error, not a value to salvage.
#[test]
fn test_unterminated_quote_is_an_error() {
    let err = control_file("comment = 'never closed").unwrap_err();

    assert!(
        err.message().contains("unterminated quoted value"),
        "unexpected error: {}",
        err.message()
    );
}

// A `#` inside a quoted value is content; outside one it starts a comment.
#[test]
fn test_comment_handling() {
    let cf = control_file("comment = 'has # inside'\nschema = public # trailing").unwrap();

    assert_eq!(cf.comment().unwrap(), "has # inside");
    assert_eq!(cf.schema().unwrap(), "public");
}

#[test]
fn unterminated_quote_error_names_the_line() {
    let err = control_file("schema = public\n\n  comment = 'open  \n").unwrap_err();

    assert_eq!(
        err.message(),
        "line 3 of control file has an unterminated quoted value: `comment = 'open`"
    );
    match err {
        ControlError::UnterminatedQuote { line, text } => {
            assert_eq!(line, 3);
            assert_eq!(text, "comment = 'open");
        }
        other => panic!("unexpected error: {:?}", other),
    }
}

#[test]
fn a_name_without_a_value_is_an_error() {
    let err = control_file("default_version = '1.0.0'\nrelocatable").unwrap_err();

    assert_eq!(
        err.message(),
        "line 2 of control file has a parameter name with no value: `relocatable`"
    );
}

#[test]
fn a_trailing_backslash_leaves_the_quote_open() {
    let err = control_file("comment = 'abc\\").unwrap_err();

    assert!(matches!(err, ControlError::UnterminatedQuote { line: 1, .. }));
}

#[test]
fn a_later_setting_overrides_an_earlier_one() {
    let cf = control_file("schema = first\nSCHEMA = second").unwrap();

    assert_eq!(cf.schema().unwrap(), "second");
}

#[test]
fn names_are_case_insensitive() {
    let cf = control_file("Default_Version = '2.0.0'\nCOMMENT = Hi").unwrap();

    assert_eq!(cf.default_version().unwrap(), "2.0.0");
    assert_eq!(cf.comment().unwrap(), "Hi");
}

#[test]
fn text_after_the_closing_quote_is_ignored() {
    let cf = control_file("comment = 'kept' dropped").unwrap();

    assert_eq!(cf.comment().unwrap(), "kept");
}

#[test]
fn unquoted_value_runs_to_the_comment() {
    let cf = control_file("schema = my schema  # the schema").unwrap();

    assert_eq!(cf.schema().unwrap(), "my schema");
}

#[test]
fn an_equals_with_no_value_sets_an_empty_value() {
    let cf = control_file("default_version =").unwrap();

    assert_eq!(cf.default_version().unwrap_err().message(), "`default_version` in control file is required");
}

#[test]
fn crlf_line_endings_are_accepted() {
    let cf = control_file("default_version = '1.0.0'\r\nschema = public\r\n").unwrap();

    assert_eq!(cf.default_version().unwrap(), "1.0.0");
    assert_eq!(cf.schema().unwrap(), "public");
}

#[test]
fn relocatable_defaults_to_false_and_rejects_other_words() {
    let cf = control_file("default_version = '1.0.0'").unwrap();
    assert_eq!(cf.relocatable().unwrap(), false);

    let cf = control_file("relocatable = maybe").unwrap();
    assert_eq!(cf.relocatable().unwrap_err().message(), "invalid boolean for relocatable");

    let cf = control_file("relocatable = TRUE").unwrap();
    assert_eq!(cf.relocatable().unwrap(), true);
}

#[test]
fn repository_falls_back_to_homepage_then_repository_url() {
    let cf = control_file("repository_url = c\nhomepage = b").unwrap();
    assert_eq!(cf.repository().unwrap(), "b");

    let cf = control_file("repository_url = c").unwrap();
    assert_eq!(cf.repository().unwrap(), "c");

    let cf = control_file("schema = x").unwrap();
    assert_eq!(cf.repository(), None);
}

#[test]
fn requires_skips_empty_entries() {
    let cf = control_file("requires = ', a ,,b,  '").unwrap();
    assert_eq!(cf.required_extensions(), vec!["a", "b"]);

    let cf = control_file("schema = x").unwrap();
    assert!(cf.required_extensions().is_empty());
}

#[test]
fn extension_name_needs_the_control_suffix() {
    let cf = ControlFileRef::new("my_ext.ctl".to_string(), "").unwrap();
    assert_eq!(
        cf.extension_name().unwrap_err().message(),
        "failed to read extension name from control file"
    );

    let cf = ControlFileRef::new("a.b.control".to_string(), "").unwrap();
    assert_eq!(cf.extension_name().unwrap(), "a.b");
}

#[test]
fn metadata_collects_the_settings() {
    let cf = control_file(
        "comment = 'c'\ndefault_version = '1.0.0'\nrelocatable = on\nrequires = 'x, y'\nschema = s\nhomepage = h",
    )
    .unwrap();
    let meta = Metadata::from_control_file_ref(&cf).unwrap();

    assert_eq!(meta.extension_name, "my_ext");
    assert_eq!(meta.default_version, "1.0.0");
    assert_eq!(meta.comment.as_deref(), Some("c"));
    assert_eq!(meta.schema.as_deref(), Some("s"));
    assert!(meta.relocatable);
    assert_eq!(meta.requires, vec!["x", "y"]);
    assert_eq!(meta.repository.as_deref(), Some("h"));
}

#[test]
fn metadata_reports_the_first_problem() {
    let cf = ControlFileRef::new("bad".to_string(), "relocatable = maybe").unwrap();
    assert!(matches!(
        Metadata::from_control_file_ref(&cf),
        Err(ControlError::NoExtensionName)
    ));

    let cf = control_file("relocatable = maybe").unwrap();
    assert!(matches!(
        Metadata::from_control_file_ref(&cf),
        Err(ControlError::MissingDefaultVersion)
    ));

    let cf = control_file("default_version = '1.0.0'\nrelocatable = maybe").unwrap();
    assert!(matches!(
        Metadata::from_control_file_ref(&cf),
        Err(ControlError::InvalidRelocatable)
    ));
}

#[test]
fn parse_control_entries_reads_names_and_values() {
    let entries = parse_control_entries("a = 1\n# skip\nb 'x''y'").unwrap();

    assert_eq!(entries.get("a").as_deref(), Some("1"));
    assert_eq!(entries.get("b").as_deref(), Some("x'y"));
    assert_eq!(entries.get("c"), None);
}

#[test]
fn unicode_whitespace_is_trimmed() {
    let cf = control_file("\u{3000}schema\u{00A0}=\u{2003}public\u{2029}").unwrap();

    assert_eq!(cf.schema().unwrap(), "public");
}

#[test]
fn error_line_numbers_are_written_in_decimal() {
    let mut text = String::new();
    for _ in 0..11 {
        text.push_str("# comment\n");
    }
    text.push_str("comment");
    let err = control_file(&text).unwrap_err();

    assert_eq!(
        err.message(),
        "line 12 of control file has a parameter name with no value: `comment`"
    );
}

// A `#` outside quotes starts a comment, so a name followed only by a
// comment has no value.
#[test]
fn a_name_followed_by_a_comment_has_no_value() {
    let err = control_file("schema # public").unwrap_err();
    assert_eq!(
        err.message(),
        "line 1 of control file has a parameter name with no value: `schema # public`"
    );

    let err = control_file("default_version = '1.0'\nschema#public").unwrap_err();
    assert!(matches!(err, ControlError::NameWithoutValue { line: 2, .. }));
}

#[test]
fn a_hash_ends_a_name() {
    let err = control_file("foo#bar = 1").unwrap_err();
    assert!(matches!(err, ControlError::NameWithoutValue { line: 1, .. }));
}

#[test]
fn an_equals_followed_by_a_comment_sets_an_empty_value() {
    let cf = control_file("schema = # nothing here").unwrap();
    assert_eq!(cf.schema().unwrap(), "");
}

#[test]
fn blank_and_comment_lines_change_nothing() {
    let plain = control_file("schema = a\ncomment = 'b'").unwrap();
    let padded = control_file("\n# note\nschema = a\n   \n  # another\ncomment = 'b'\n").unwrap();
    assert_eq!(plain.schema(), padded.schema());
    assert_eq!(plain.comment(), padded.comment());

    let err = control_file("\n# note\nschema").unwrap_err();
    assert!(matches!(err, ControlError::NameWithoutValue { line: 3, .. }));
}

#[test]
fn multibyte_names_and_values_are_read_whole() {
    let entries = parse_control_entries("ключ = 'значение' # примечание").unwrap();
    assert_eq!(entries.get("ключ").as_deref(), Some("значение"));
}

#[test]
fn several_skipped_lines_anywhere_change_nothing() {
    let plain = control_file("schema = a\ncomment = b").unwrap();
    let padded = control_file("# x\n\n# y\nschema = a\n# z\n   \ncomment = b\n# end\n\n# last").unwrap();
    assert_eq!(plain.schema(), padded.schema());
    assert_eq!(plain.comment(), padded.comment());

    let err = control_file("schema = a\n# x\n\ncomment 'open").unwrap_err();
    assert!(matches!(err, ControlError::UnterminatedQuote { line: 4, .. }));
}

#[test]
fn the_first_faulty_line_is_reported() {
    let err = control_file("a = 1\nbare\ncomment 'open").unwrap_err();
    assert!(matches!(err, ControlError::NameWithoutValue { line: 2, .. }));

    let err = control_file("a = 1\ncomment 'open\nbare").unwrap_err();
    assert!(matches!(err, ControlError::UnterminatedQuote { line: 2, .. }));
}
